//! The squares that a piece may go to.

use vstd::prelude::*;
use crate::bitmask::{
    BitMask, has_sq, sq_mask, is_square, lowest_sq, rank_of, popcount, group_has_sq,
    lemma_is_square, lemma_has_test, lemma_has_nonzero, lemma_nonempty, lemma_popcount_small,
    bm_to_idx, bm_shift, bm_make_row, bm_count,
};
use crate::geometry::{is_sq, between, on_ray};
use crate::board::{Board, pawn_attacks, pawn_dy, PIECE_PAWN, PIECE_KING};
use crate::lookup_gen::{
    get_piece_tos, get_between_mask_inclusive, get_ray_mask, lemma_piece_attacks_own_square,
};
use crate::move_gen::{generate_pawn_attacks_side, is_en_passant_pinned_horizontal};
use crate::Tables;

verus! {

/// The squares that a pawn of side `turn_idx` on the square of `from` may
/// step to: one ahead where that is empty, and two from its first rank where
/// both are.
fn pawn_pushes(from: BitMask, occ: BitMask, turn_idx: usize) -> (tos: BitMask)
    requires
        is_square(from),
        turn_idx < 2,
    ensures
        forall|t: int|
            is_sq(t) ==> #[trigger] has_sq(tos, t) == {
                let f = lowest_sq(from);
                let dy = pawn_dy(turn_idx as int);
                ||| (t == f + 8 * dy && !has_sq(occ, t))
                ||| (rank_of(f) == Board::pawn_start_rank(turn_idx as int) && t == f + 16 * dy
                    && !has_sq(occ, f + 8 * dy) && !has_sq(occ, t))
            },
{
    broadcast use group_has_sq;

    let ghost f = lowest_sq(from);
    proof {
        lemma_is_square(from);
    }
    let pawn_advance_dy: i64 = if turn_idx == 0 {
        1
    } else {
        -1
    };
    let step = bm_shift(from, 0, pawn_advance_dy) & !occ;
    let starting_rank = if turn_idx == 0 {
        bm_make_row(1)
    } else {
        bm_make_row(6)
    };
    proof {
        lemma_has_test(starting_rank, f);
    }
    if (starting_rank & from) != 0 {
        step | (bm_shift(step, 0, pawn_advance_dy) & !occ)
    } else {
        step
    }
}

/// The squares of `victims` that a pawn of side `turn_idx` on the square of
/// `from` attacks.
fn pawn_captures(from: BitMask, turn_idx: usize, victims: BitMask) -> (tos: BitMask)
    requires
        is_square(from),
        turn_idx < 2,
    ensures
        forall|t: int|
            is_sq(t) ==> #[trigger] has_sq(tos, t) == (pawn_attacks(
                turn_idx as int,
                lowest_sq(from),
                t,
            ) && has_sq(victims, t)),
{
    broadcast use group_has_sq;

    let ghost f = lowest_sq(from);
    let ghost m = turn_idx as int;
    proof {
        lemma_is_square(from);
    }
    let pawn_advance_dy: i64 = if turn_idx == 0 {
        1
    } else {
        -1
    };
    let tos = (generate_pawn_attacks_side(0, from, pawn_advance_dy) | generate_pawn_attacks_side(
        1,
        from,
        pawn_advance_dy,
    )) & victims;
    proof {
        assert forall|t: int| is_sq(t) implies #[trigger] has_sq(tos, t) == (pawn_attacks(m, f, t)
            && has_sq(victims, t)) by {
            let ay = rank_of(t) - pawn_advance_dy;
            if crate::bitmask::on_board(crate::bitmask::file_of(t) + 1, ay) {
                crate::geometry::lemma_sq_at(crate::bitmask::file_of(t) + 1, ay);
            }
            if crate::bitmask::on_board(crate::bitmask::file_of(t) - 1, ay) {
                crate::geometry::lemma_sq_at(crate::bitmask::file_of(t) - 1, ay);
            }
        }
    }
    tos
}

/// The squares that the pawn of the side to move on the square of `from` may
/// go to, leaving aside checks and pins on files and diagonals.
fn pawn_targets(board: &Board, from: BitMask) -> (tos: BitMask)
    requires
        is_square(from),
        board.turn_idx < 2,
        is_square(board.pieces[board.turn_idx as int][PIECE_KING as int]),
        board.en_passant_ok(),
        board.occupancy_ok(),
    ensures
        forall|t: int| is_sq(t) ==> #[trigger] has_sq(tos, t) == board.pawn_reaches(lowest_sq(from), t),
{
    let ghost f = lowest_sq(from);
    let ghost m = board.turn_idx as int;
    let ghost e = board.en_passant_sq();
    let turn_idx = board.turn_idx;
    let occ_combined = board.combined_occupancy();
    let victims = board.occupancy[1 - turn_idx] | board.en_passant_mask;
    let pushes = pawn_pushes(from, occ_combined, turn_idx);
    let attack_tos = pawn_captures(from, turn_idx, victims);
    let both = pushes | attack_tos;
    let in_passing = attack_tos & board.en_passant_mask;
    proof {
        lemma_is_square(from);
        if board.en_passant_mask != 0 {
            lemma_is_square(board.en_passant_mask);
            crate::bitmask::lemma_has_and(attack_tos, board.en_passant_mask, e);
            crate::bitmask::lemma_has_or(
                board.occupancy[1 - turn_idx],
                board.en_passant_mask,
                e,
            );
            if in_passing != 0 {
                lemma_nonempty(in_passing);
                crate::bitmask::lemma_has_and(
                    attack_tos,
                    board.en_passant_mask,
                    lowest_sq(in_passing),
                );
            } else if has_sq(attack_tos, e) {
                lemma_has_nonzero(in_passing, e);
            }
            assert((in_passing != 0) == pawn_attacks(m, f, e));
        } else {
            assert(in_passing == 0) by (bit_vector)
                requires
                    in_passing == attack_tos & 0,
            ;
        }
    }
    // Both pawns leave the rank at once: the king may stand behind them.
    let tos = if in_passing != 0 && is_en_passant_pinned_horizontal(
        board,
        from,
        turn_idx,
        if turn_idx == 0 {
            1
        } else {
            -1
        },
    ) {
        both & !board.en_passant_mask
    } else {
        both
    };
    proof {
        assert forall|t: int| is_sq(t) implies #[trigger] has_sq(tos, t) == board.pawn_reaches(
            f,
            t,
        ) by {
            crate::bitmask::lemma_has_or(pushes, attack_tos, t);
            crate::bitmask::lemma_has_and(both, !board.en_passant_mask, t);
            crate::bitmask::lemma_has_not(board.en_passant_mask, t);
            crate::bitmask::lemma_has_or(
                board.occupancy[1 - turn_idx],
                board.en_passant_mask,
                t,
            );
            crate::bitmask::lemma_has_zero(t);
            if board.en_passant_mask != 0 {
                assert(has_sq(board.en_passant_mask, t) == (t == e));
            }
        }
    }
    tos
}

/// The number of checking pieces, and the squares on which a piece other
/// than the king deals with a single check: all squares where there is none.
pub fn check_mask(tables: &Tables, board: &Board) -> (found: (u32, BitMask))
    requires
        tables.wf(),
        board.ready(),
    ensures
        found.0 == popcount(board.checkers),
        (found.0 != 0) == board.in_check(),
        (found.0 > 1) == board.in_double_check(),
        found.0 <= 1 ==> forall|t: int|
            is_sq(t) ==> #[trigger] has_sq(found.1, t) == board.resolves_check(t),
{
    broadcast use group_has_sq;

    let ghost m = board.turn_idx as int;
    let ghost k = board.king_sq(m);
    let king = board.pieces[board.turn_idx][PIECE_KING];
    let num_checkers = bm_count(board.checkers);
    proof {
        lemma_popcount_small(board.checkers);
        lemma_is_square(king);
        if board.checkers != 0 {
            lemma_nonempty(board.checkers);
            let c = lowest_sq(board.checkers);
            assert(board.checker(c));
            if !is_square(board.checkers) {
                let rest = board.checkers & !sq_mask(c);
                if rest == 0 {
                    assert forall|a: int| 0 <= a < 64 implies has_sq(board.checkers, a) == (a
                        == c) by {
                        assert(has_sq(rest, a) == (has_sq(board.checkers, a) && a != c));
                    }
                    crate::bitmask::lemma_only_square(board.checkers, c);
                }
                lemma_nonempty(rest);
                let c2 = lowest_sq(rest);
                assert(board.checker(c2) && board.checker(c) && c2 != c);
            }
        }
        if board.in_check() {
            let a = choose|a: int| is_sq(a) && #[trigger] board.checker(a);
            lemma_has_nonzero(board.checkers, a);
        }
        if board.in_double_check() {
            let (a1, a2) = choose|a1: int, a2: int|
                is_sq(a1) && is_sq(a2) && a1 != a2 && #[trigger] board.checker(a1)
                    && #[trigger] board.checker(a2);
            lemma_has_nonzero(board.checkers, a1);
            if is_square(board.checkers) {
                lemma_is_square(board.checkers);
                assert(has_sq(board.checkers, a1) && has_sq(board.checkers, a2));
            }
        }
    }
    if num_checkers == 1 {
        // The check is met by taking the checking piece or by stepping in between.
        let move_mask = get_between_mask_inclusive(
            tables,
            bm_to_idx(king),
            bm_to_idx(board.checkers),
        );
        proof {
            lemma_is_square(board.checkers);
            let c = lowest_sq(board.checkers);
            assert forall|t: int| is_sq(t) implies #[trigger] has_sq(move_mask, t)
                == board.resolves_check(t) by {
                assert(board.checker(c));
                if t == k || t == c || between(k, c, t) {
                    assert forall|a: int| is_sq(a) && #[trigger] board.checker(a) implies (t == k
                        || t == a || between(k, a, t)) by {
                        assert(has_sq(board.checkers, a));
                    }
                }
            }
        }
        (num_checkers, move_mask)
    } else {
        proof {
            if num_checkers == 0 {
                assert forall|t: int| is_sq(t) implies board.resolves_check(t) by {
                    assert forall|a: int| is_sq(a) && #[trigger] board.checker(a) implies (t == k
                        || t == a || between(k, a, t)) by {
                        assert(has_sq(board.checkers, a));
                    }
                }
            }
        }
        (num_checkers, !0u64)
    }
}

/// The en-passant square, where the pawn that is taken there is the only
/// piece that may give check; else no square.
fn checker_in_passing(board: &Board) -> (mask: BitMask)
    requires
        board.ready(),
    ensures
        forall|t: int| is_sq(t) ==> #[trigger] has_sq(mask, t) == board.takes_checker_in_passing(t),
{
    broadcast use group_has_sq;

    let ghost m = board.turn_idx as int;
    let ghost v = board.en_passant_sq() - 8 * pawn_dy(m);
    if board.en_passant_mask == 0 {
        return 0;
    }
    proof {
        lemma_is_square(board.en_passant_mask);
    }
    let victim = bm_shift(
        board.en_passant_mask,
        0,
        if board.turn_idx == 0 {
            -1
        } else {
            1
        },
    );
    let others = board.checkers & !victim;
    proof {
        assert forall|a: int| is_sq(a) implies has_sq(others, a) == (board.checker(a) && a != v) by {
            assert(has_sq(board.checkers, a) == board.checker(a));
        }
        if others != 0 {
            lemma_nonempty(others);
            assert(board.checker(lowest_sq(others)));
        }
        if exists|a: int| is_sq(a) && #[trigger] board.checker(a) && a != v {
            let a = choose|a: int| is_sq(a) && #[trigger] board.checker(a) && a != v;
            lemma_has_nonzero(others, a);
        }
    }
    if others == 0 {
        board.en_passant_mask
    } else {
        0
    }
}

/// The squares that the piece of the side to move, of kind `piece_idx` on the
/// square of `from`, may go to. `move_mask` is what `check_mask` found.
pub fn target_squares(
    tables: &Tables,
    board: &Board,
    piece_idx: usize,
    from: BitMask,
    move_mask: BitMask,
) -> (tos: BitMask)
    requires
        tables.wf(),
        board.ready(),
        piece_idx < 6,
        is_square(from),
        piece_idx != PIECE_KING ==> !board.in_double_check() && forall|t: int|
            is_sq(t) ==> #[trigger] has_sq(move_mask, t) == board.resolves_check(t),
    ensures
        forall|t: int|
            is_sq(t) ==> #[trigger] has_sq(tos, t) == board.reaches(
                piece_idx as int,
                lowest_sq(from),
                t,
            ),
{
    let ghost f = lowest_sq(from);
    let ghost m = board.turn_idx as int;
    let ghost k = board.king_sq(m);
    let turn_idx = board.turn_idx;
    let occ_team = board.occupancy[turn_idx];
    let occ_combined = board.combined_occupancy();
    let king = board.pieces[turn_idx][PIECE_KING];
    let opp_king = board.pieces[1 - turn_idx][PIECE_KING];
    let idx = bm_to_idx(from);
    proof {
        lemma_is_square(from);
        lemma_is_square(king);
    }
    let moves = if piece_idx == PIECE_PAWN {
        pawn_targets(board, from)
    } else {
        get_piece_tos(tables, piece_idx, from, idx, occ_combined)
    };
    proof {
        if piece_idx != PIECE_PAWN {
            assert forall|t: int| is_sq(t) implies #[trigger] has_sq(moves, t)
                == crate::lookup_gen::piece_attacks(piece_idx as int, f, board.occ_all(), t) by {
                lemma_piece_attacks_own_square(piece_idx as int, f, occ_combined, t);
            }
        }
    }
    // No piece takes one of its own side, and none takes the king.
    let free = (moves & !occ_team) & !opp_king;
    // A pinned piece stays on the line from the king through itself.
    let is_pinned = (board.pinned[turn_idx] & from) != 0;
    let line: BitMask = if is_pinned && piece_idx != PIECE_KING {
        get_ray_mask(tables, bm_to_idx(king), idx)
    } else {
        0xffff_ffff_ffff_ffff
    };
    // A pawn also meets a check by taking the checking pawn in passing.
    let passing: BitMask = if piece_idx == PIECE_PAWN {
        checker_in_passing(board)
    } else {
        0
    };
    let tos = if piece_idx == PIECE_KING {
        // The king stays off the squares that the other side attacks.
        free & !board.attacks[1 - turn_idx]
    } else {
        (free & line) & (move_mask | passing)
    };
    proof {
        lemma_has_test(board.pinned[m], f);
        assert forall|t: int| is_sq(t) implies #[trigger] has_sq(tos, t) == board.reaches(
            piece_idx as int,
            f,
            t,
        ) by {
            crate::bitmask::lemma_has_and(moves, !occ_team, t);
            crate::bitmask::lemma_has_not(occ_team, t);
            crate::bitmask::lemma_has_and(moves & !occ_team, !opp_king, t);
            crate::bitmask::lemma_has_not(opp_king, t);
            assert(has_sq(free, t) == (has_sq(moves, t) && !has_sq(board.occ(m), t)
                && !board.piece_on(1 - m, PIECE_KING as int, t)));
            if piece_idx == PIECE_KING {
                crate::bitmask::lemma_has_and(free, !board.attacks[1 - m], t);
                crate::bitmask::lemma_has_not(board.attacks[1 - m], t);
                assert(has_sq(board.attacks[1 - m], t) == board.attacked_by(1 - m, t));
            } else {
                crate::bitmask::lemma_has_and(free, line, t);
                crate::bitmask::lemma_has_and(free & line, move_mask | passing, t);
                crate::bitmask::lemma_has_or(move_mask, passing, t);
                crate::bitmask::lemma_has_zero(t);
                crate::bitmask::lemma_has_full(t);
                assert(has_sq(board.pinned[m], f) == board.is_pinned(m, f));
                assert(has_sq(line, t) == (board.is_pinned(m, f) ==> (t == k || on_ray(k, f, t))));
                assert(has_sq(move_mask, t) == board.resolves_check(t));
            }
        }
    }
    tos
}

} // verus!
