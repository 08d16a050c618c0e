//! What of the evaluation of a position is counting: where pawns attack, and
//! whether a side has the material to mate; in the modules below, what a
//! move does and how pawns, rooks and kings stand.

use vstd::prelude::*;
use crate::bitmask::{BitMask, has_sq, popcount, file_of, rank_of, on_board, sq_at, bm_count};
use crate::geometry::{is_sq, lemma_sq_at, lemma_sq_coords};
use crate::board::{
    Board, pawn_attacks, pawn_dy, PIECE_PAWN, PIECE_KNIGHT, PIECE_ROOK, PIECE_QUEEN,
};
use crate::move_gen::generate_pawn_attacks_side;

pub mod moves;
pub mod structure;

verus! {

/// The squares that the pawns of side `team_idx` attack.
pub fn get_pawn_attack_mask(board: &Board, team_idx: usize) -> (capture_mask: BitMask)
    requires
        team_idx < 2,
    ensures
        forall|b: int|
            is_sq(b) ==> #[trigger] has_sq(capture_mask, b) == exists|a: int|
                is_sq(a) && board.piece_on(team_idx as int, PIECE_PAWN as int, a)
                    && #[trigger] pawn_attacks(team_idx as int, a, b),
{
    let pawns = board.pieces[team_idx][PIECE_PAWN];
    let pawn_advance_dy: i64 = if team_idx == 0 {
        1
    } else {
        -1
    };
    let lower = generate_pawn_attacks_side(0, pawns, pawn_advance_dy);
    let higher = generate_pawn_attacks_side(1, pawns, pawn_advance_dy);
    let capture_mask = lower | higher;
    proof {
        let t = team_idx as int;
        assert forall|b: int| is_sq(b) implies #[trigger] has_sq(capture_mask, b) == exists|a: int|
            is_sq(a) && board.piece_on(t, PIECE_PAWN as int, a) && #[trigger] pawn_attacks(
                t,
                a,
                b,
            ) by {
            crate::bitmask::lemma_has_or(lower, higher, b);
            let ay = rank_of(b) - pawn_dy(t);
            let left = file_of(b) + 1;
            let right = file_of(b) - 1;
            if on_board(left, ay) {
                lemma_sq_at(left, ay);
                if has_sq(pawns, sq_at(left, ay)) {
                    assert(pawn_attacks(t, sq_at(left, ay), b));
                }
            }
            if on_board(right, ay) {
                lemma_sq_at(right, ay);
                if has_sq(pawns, sq_at(right, ay)) {
                    assert(pawn_attacks(t, sq_at(right, ay), b));
                }
            }
            if exists|a: int|
                is_sq(a) && board.piece_on(t, PIECE_PAWN as int, a) && #[trigger] pawn_attacks(
                    t,
                    a,
                    b,
                ) {
                let a = choose|a: int|
                    is_sq(a) && board.piece_on(t, PIECE_PAWN as int, a) && #[trigger] pawn_attacks(
                        t,
                        a,
                        b,
                    );
                lemma_sq_coords(a);
                assert(a == sq_at(left, ay) || a == sq_at(right, ay));
            }
        }
    }
    capture_mask
}

/// Whether side `team_idx` has the material to mate: a pawn; or three pieces
/// beside the king; or two that are not both knights; or one, a rook or a queen.
pub open spec fn spec_is_checkmate_possible(board: &Board, team_idx: int) -> bool {
    let pieces = popcount(board.occupancy[team_idx]) - 1;
    if board.pieces[team_idx][PIECE_PAWN as int] != 0 {
        true
    } else if pieces >= 3 {
        true
    } else if pieces == 2 {
        popcount(board.pieces[team_idx][PIECE_KNIGHT as int]) != 2
    } else if pieces == 1 {
        (board.pieces[team_idx][PIECE_ROOK as int] | board.pieces[team_idx][PIECE_QUEEN as int])
            != 0
    } else {
        false
    }
}

/// Whether side `team_idx` has the material to mate.
pub fn is_checkmate_possible(board: &Board, team_idx: usize) -> (possible: bool)
    requires
        team_idx < 2,
        board.occupancy[team_idx as int] != 0,
    ensures
        possible == spec_is_checkmate_possible(board, team_idx as int),
{
    if board.pieces[team_idx][PIECE_PAWN] != 0 {
        return true;
    }
    let occ = board.occupancy[team_idx];
    proof {
        crate::bitmask::lemma_popcount_small(occ);
    }
    // The pieces beside the king.
    let piece_count = bm_count(occ) - 1;
    if piece_count >= 3 {
        true
    } else if piece_count == 2 {
        // Two knights cannot force mate.
        !(bm_count(board.pieces[team_idx][PIECE_KNIGHT]) == 2)
    } else if piece_count == 1 {
        (board.pieces[team_idx][PIECE_ROOK] | board.pieces[team_idx][PIECE_QUEEN]) != 0
    } else {
        false
    }
}

/// Whether the side to move has a piece that is neither pawn nor king.
pub open spec fn spec_has_non_pawn_material(board: &Board) -> bool {
    board.occupancy[board.turn_idx as int] != board.pieces[board.turn_idx as int][0]
        | board.pieces[board.turn_idx as int][5]
}

/// Whether the side to move has a piece that is neither pawn nor king.
pub fn has_non_pawn_material(board: &Board) -> (has: bool)
    requires
        board.turn_idx < 2,
    ensures
        has == spec_has_non_pawn_material(board),
{
    let king_and_pawn = board.pieces[board.turn_idx][0] | board.pieces[board.turn_idx][5];
    board.occupancy[board.turn_idx] != king_and_pawn
}

} // verus!
