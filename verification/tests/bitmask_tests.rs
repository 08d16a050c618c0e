use board_crab::bitmask::{
    bm_count, bm_flip_vertical, bm_from_coord, bm_from_idx, bm_from_xy, bm_get, bm_iter_bits,
    bm_make_column, bm_make_row, bm_set, bm_shift, bm_to_coord, bm_to_idx, bm_to_xy,
};
use board_crab::board::{PIECE_BISHOP, PIECE_KING, PIECE_KNIGHT, PIECE_PAWN, PIECE_QUEEN, PIECE_ROOK};
use board_crab::lookup_gen;

#[test]
fn squares_and_indices() {
    assert_eq!(bm_to_idx(1u64 << 5), 5);
    assert_eq!(bm_to_idx(1u64 << 63), 63);
    assert_eq!(bm_from_idx(0), 1);
    assert_eq!(bm_from_idx(63), 1u64 << 63);
    assert_eq!(bm_from_xy(3, 2), 1u64 << 19);
    assert_eq!(bm_to_xy(1u64 << 19), (3, 2));
    assert_eq!(bm_to_xy(1u64 << 63), (7, 7));
}

#[test]
fn squares_and_names() {
    assert_eq!(bm_from_coord("e4"), 1u64 << 28);
    assert_eq!(bm_from_coord("E4"), 1u64 << 28);
    assert_eq!(bm_from_coord("a1"), 1);
    assert_eq!(bm_from_coord("h8"), 1u64 << 63);
    assert_eq!(bm_to_coord(1u64 << 28), "e4");
    assert_eq!(bm_to_coord(1), "a1");
    assert_eq!(bm_to_coord(1u64 << 63), "h8");
}

#[test]
fn getting_and_setting_squares() {
    let mut mask = 0u64;
    bm_set(&mut mask, 4, 0, true);
    assert_eq!(mask, 0x10);
    assert!(bm_get(mask, 4, 0));
    assert!(!bm_get(mask, 3, 0));
    bm_set(&mut mask, 7, 7, true);
    assert_eq!(mask, 0x8000_0000_0000_0010);
    bm_set(&mut mask, 4, 0, false);
    assert_eq!(mask, 0x8000_0000_0000_0000);
    bm_set(&mut mask, 4, 0, false);
    assert_eq!(mask, 0x8000_0000_0000_0000);
}

#[test]
fn shifting_rows_and_columns() {
    assert_eq!(bm_shift(1u64 << 28, 1, 1), 1u64 << 37);
    assert_eq!(bm_shift(1u64 << 28, -1, -1), 1u64 << 19);
    assert_eq!(bm_shift(1u64 << 28, 0, 0), 1u64 << 28);
    assert_eq!(bm_shift(1u64 << 60, 0, 1), 0);
    assert_eq!(bm_shift(1u64 << 7, 1, 0), 1u64 << 8);
    // Only the sum counts: nine files up and one rank down is one square up.
    assert_eq!(bm_shift(1u64 << 28, 9, -1), 1u64 << 29);
    assert_eq!(bm_shift(1u64 << 28, -9, 1), 1u64 << 27);
    assert_eq!(bm_shift(1, 63, 0), 1u64 << 63);
    assert_eq!(bm_shift(1u64 << 63, 1, -8), 1);
    assert_eq!(bm_shift(u64::MAX, -7, -7), 1);
    assert_eq!(bm_shift(u64::MAX, 7, 7), 1u64 << 63);
    assert_eq!(bm_shift(0xff, i64::MAX - 7, -(i64::MAX / 8)), 0xff);
    assert_eq!(bm_make_row(0), 0xff);
    assert_eq!(bm_make_row(1), 0xff00);
    assert_eq!(bm_make_row(7), 0xff00_0000_0000_0000);
    assert_eq!(bm_make_column(0), 0x0101_0101_0101_0101);
    assert_eq!(bm_make_column(7), 0x8080_8080_8080_8080);
}

#[test]
fn flipping_and_counting() {
    assert_eq!(bm_flip_vertical(0xff), 0xff00_0000_0000_0000);
    assert_eq!(bm_flip_vertical(0x10), 0x1000_0000_0000_0000);
    assert_eq!(bm_flip_vertical(0x0123_4567_89ab_cdef), 0xefcd_ab89_6745_2301);
    assert_eq!(bm_count(0), 0);
    assert_eq!(bm_count(0x10), 1);
    assert_eq!(bm_count(0xff00), 8);
    assert_eq!(bm_count(u64::MAX), 64);
}

#[test]
fn walking_the_squares_of_a_mask() {
    let mut itr = bm_iter_bits(0x8000_0000_0000_0105);
    assert_eq!(itr.next(), Some(1));
    assert_eq!(itr.next(), Some(4));
    assert_eq!(itr.next(), Some(0x100));
    assert_eq!(itr.next(), Some(0x8000_0000_0000_0000));
    assert_eq!(itr.next(), None);
    assert_eq!(itr.next(), None);
    let mut empty = bm_iter_bits(0);
    assert_eq!(empty.next(), None);
}

#[test]
fn attacks_on_an_empty_board() {
    let tables = board_crab::init();
    assert_eq!(
        lookup_gen::get_piece_base_tos(&tables, PIECE_KNIGHT, 0),
        (1u64 << 10) | (1u64 << 17)
    );
    assert_eq!(
        lookup_gen::get_piece_base_tos(&tables, PIECE_KING, 0),
        (1u64 << 1) | (1u64 << 8) | (1u64 << 9)
    );
    assert_eq!(
        lookup_gen::get_piece_base_tos(&tables, PIECE_ROOK, 0),
        0x0101_0101_0101_01fe
    );
    assert_eq!(
        lookup_gen::get_piece_base_tos(&tables, PIECE_BISHOP, 0),
        0x8040_2010_0804_0200
    );
    assert_eq!(
        lookup_gen::get_piece_base_tos(&tables, PIECE_QUEEN, 0),
        0x0101_0101_0101_01fe | 0x8040_2010_0804_0200
    );
    assert_eq!(lookup_gen::get_piece_base_tos(&tables, PIECE_PAWN, 12), 0);
    assert_eq!(lookup_gen::get_piece_base_tos(&tables, 9, 12), 0);
    assert_eq!(
        lookup_gen::get_piece_base_tos(&tables, PIECE_KNIGHT, 27).count_ones(),
        8
    );
}

#[test]
fn masks_between_two_squares() {
    let tables = board_crab::init();
    // a1 and d4 stand on a diagonal.
    assert_eq!(
        lookup_gen::get_between_mask_exclusive(&tables, 0, 27),
        (1u64 << 9) | (1u64 << 18)
    );
    assert_eq!(
        lookup_gen::get_between_mask_inclusive(&tables, 0, 27),
        1 | (1u64 << 9) | (1u64 << 18) | (1u64 << 27)
    );
    assert_eq!(lookup_gen::get_ray_mask(&tables, 0, 27), 0x8040_2010_0804_0201);
    assert_eq!(lookup_gen::get_ray_mask(&tables, 27, 0), 1 | (1u64 << 9) | (1u64 << 18) | (1u64 << 27));
    // a1 and c2 stand on no line.
    assert_eq!(lookup_gen::get_between_mask_exclusive(&tables, 0, 10), 0);
    assert_eq!(lookup_gen::get_between_mask_inclusive(&tables, 0, 10), 1 | (1u64 << 10));
    assert_eq!(lookup_gen::get_ray_mask(&tables, 0, 10), 1);
    // A square and itself.
    assert_eq!(lookup_gen::get_between_mask_exclusive(&tables, 5, 5), 0);
    assert_eq!(lookup_gen::get_between_mask_inclusive(&tables, 5, 5), 1u64 << 5);
    assert_eq!(lookup_gen::get_ray_mask(&tables, 5, 5), 1u64 << 5);
    // Neighbours on a rank.
    assert_eq!(lookup_gen::get_between_mask_exclusive(&tables, 3, 4), 0);
    assert_eq!(lookup_gen::get_ray_mask(&tables, 3, 4), 0xf8);
}

#[test]
fn walks_and_sliding_attacks() {
    // From a1 up the rank over an empty board.
    assert_eq!(lookup_gen::walk_in_dir(1, 1, u64::MAX), 0xff);
    // It does not step over the side of the board.
    assert_eq!(lookup_gen::walk_in_dir(1, 1u64 << 7, u64::MAX), 1u64 << 7);
    assert_eq!(lookup_gen::walk_in_dir(-1, 1u64 << 8, u64::MAX), 1u64 << 8);
    // It enters the first square that is not free and stops there.
    assert_eq!(lookup_gen::walk_in_dir(8, 1, !(1u64 << 24)), 1 | (1u64 << 8) | (1u64 << 16) | (1u64 << 24));
    assert_eq!(lookup_gen::walk_in_dir(9, 1, !(1u64 << 9)), 1 | (1u64 << 9));
    assert_eq!(lookup_gen::walk_in_dir(-9, 1u64 << 63, u64::MAX), 0x8040_2010_0804_0201);
    assert_eq!(lookup_gen::walk_in_dir(7, 1u64 << 7, u64::MAX), 0x0102_0408_1020_4080);
    assert_eq!(lookup_gen::walk_in_dir(-7, 1u64 << 56, u64::MAX), 0x0102_0408_1020_4080);
    assert_eq!(lookup_gen::walk_in_dir(-8, 1u64 << 56, u64::MAX), 0x0101_0101_0101_0101);
    // Walks from several squares at once: from a1 and a2 up their ranks, the
    // second stopped on c2.
    assert_eq!(
        lookup_gen::walk_in_dir(1, 1 | (1u64 << 8), !(1u64 << 10)),
        0xff | (1u64 << 8) | (1u64 << 9) | (1u64 << 10)
    );
    // A walk goes over another start square, free or not.
    assert_eq!(lookup_gen::walk_in_dir(1, 1 | (1u64 << 2), 0), 0x0f);
    // Nothing walks from no square.
    assert_eq!(lookup_gen::walk_in_dir(8, 0, u64::MAX), 0);

    // A rook on a1 with a piece on a4 and one on c1.
    let occupy = (1u64 << 24) | (1u64 << 2);
    assert_eq!(
        lookup_gen::get_slider_tos_slow(PIECE_ROOK, 0, occupy),
        (1u64 << 8) | (1u64 << 16) | (1u64 << 24) | (1u64 << 1) | (1u64 << 2)
    );
    // A bishop on c1 with a piece on e3.
    assert_eq!(
        lookup_gen::get_slider_tos_slow(PIECE_BISHOP, 2, 1u64 << 20),
        (1u64 << 9) | (1u64 << 16) | (1u64 << 11) | (1u64 << 20)
    );
    assert_eq!(
        lookup_gen::get_slider_tos_slow(PIECE_QUEEN, 0, 0),
        0x0101_0101_0101_01fe | 0x8040_2010_0804_0200
    );
    let tables = board_crab::init();
    // What stands on the piece's own square is not in its way.
    assert_eq!(
        lookup_gen::get_piece_tos(&tables, PIECE_ROOK, 1, 0, occupy | 1),
        (1u64 << 8) | (1u64 << 16) | (1u64 << 24) | (1u64 << 1) | (1u64 << 2)
    );
    assert_eq!(
        lookup_gen::get_piece_tos(&tables, PIECE_KNIGHT, 1, 0, u64::MAX),
        (1u64 << 10) | (1u64 << 17)
    );
}
