//! What a move does that its ordering looks at: what it captures, whether
//! it lands on an attacked square, and whether the piece bears on the other
//! king from where it lands.

use vstd::prelude::*;
use crate::bitmask::{
    bm_count, bm_to_idx, count_where, has_sq, is_square, lemma_count_where, lemma_has_test,
    lemma_is_square, lowest_sq, BitMask,
};
use crate::board::{
    Board, Move, PIECE_BISHOP, PIECE_KING, PIECE_PAWN, PIECE_QUEEN, PIECE_ROOK,
};
use crate::geometry::between;
use crate::lookup_gen::{base_attacks, get_between_mask_exclusive, get_piece_base_tos, is_slider};
use crate::Tables;

verus! {

/// How a piece bears on the other king from the square it lands on.
#[derive(Debug, Copy, Clone, PartialEq, Eq, Structural)]
pub enum Threat {
    /// Not at all, or with two or more pieces in the way.
    Absent,
    /// It gives check.
    Check,
    /// One piece stands in the way.
    Pin,
}

/// The lowest kind, from kind `p` up to the queen, of which side `t` has a
/// piece on a square of `mask`.
pub open spec fn kind_on(board: &Board, t: int, mask: BitMask, p: int) -> Option<usize>
    decreases 5 - p,
{
    if p < 0 || p >= 5 {
        None
    } else if board.pieces[t][p] & mask != 0 {
        Some(p as usize)
    } else {
        kind_on(board, t, mask, p + 1)
    }
}

/// The kind of the piece that the move `mv` captures: a pawn where it
/// captures in passing, else what the other side has on the square that the
/// move reaches. None where the move is no capture.
pub open spec fn spec_captured_kind(board: &Board, mv: &Move) -> Option<usize> {
    if !mv.has_flag(Move::FLAG_CAPTURE) {
        None
    } else if mv.has_flag(Move::FLAG_EN_PASSANT) {
        Some(PIECE_PAWN)
    } else {
        kind_on(board, 1 - board.turn_idx as int, mv.to, 0)
    }
}

/// The kind of the piece that the move `mv` captures.
pub fn captured_kind(board: &Board, mv: &Move) -> (kind: Option<usize>)
    requires
        board.turn_idx < 2,
    ensures
        kind == spec_captured_kind(board, mv),
{
    if !mv.has_flag(Move::FLAG_CAPTURE) {
        return None;
    }
    if mv.has_flag(Move::FLAG_EN_PASSANT) {
        return Some(PIECE_PAWN);
    }
    let other = 1 - board.turn_idx;
    let mut p: usize = 0;
    while p < 5
        invariant
            p <= 5,
            other == 1 - board.turn_idx,
            board.turn_idx < 2,
            mv.has_flag(Move::FLAG_CAPTURE),
            !mv.has_flag(Move::FLAG_EN_PASSANT),
            kind_on(board, other as int, mv.to, p as int) == kind_on(board, other as int, mv.to, 0),
        decreases 5 - p,
    {
        if board.pieces[other][p] & mv.to != 0 {
            return Some(p);
        }
        p += 1;
    }
    None
}

/// Whether the move `mv` lands on a square that the other side attacks.
pub fn lands_on_attacked(board: &Board, mv: &Move) -> (attacked: bool)
    requires
        board.turn_idx < 2,
    ensures
        attacked == (board.attacks[1 - board.turn_idx as int] & mv.to != 0),
{
    board.attacks[1 - board.turn_idx] & mv.to != 0
}

/// Whether a piece of either side stands on `c`, as the occupancy has it.
pub open spec fn stands_on(board: &Board, c: int) -> bool {
    has_sq(board.occupancy[0] | board.occupancy[1], c)
}

/// How many pieces stand between the squares `a` and `b`.
pub open spec fn blockers(board: &Board, a: int, b: int) -> int {
    count_where(|c: int| between(a, b, c) && stands_on(board, c), 64)
}

/// How the piece that the move `mv` puts down bears on the other king from
/// the square it lands on, with the pieces where they stand before the
/// move: a knight or a king that reaches the king gives check; a bishop,
/// rook or queen on a line with the king gives check where nothing stands
/// between, and pins where one piece does. A pawn is not looked at.
pub open spec fn spec_move_threat(board: &Board, mv: &Move) -> Threat {
    let king = lowest_sq(board.pieces[1 - board.turn_idx as int][PIECE_KING as int]);
    if !base_attacks(mv.to_piece_idx as int, mv.to_sq(), king) {
        Threat::Absent
    } else if !is_slider(mv.to_piece_idx as int) || blockers(board, king, mv.to_sq()) == 0 {
        Threat::Check
    } else if blockers(board, king, mv.to_sq()) == 1 {
        Threat::Pin
    } else {
        Threat::Absent
    }
}

/// How the piece that the move `mv` puts down bears on the other king.
pub fn move_threat(tables: &Tables, board: &Board, mv: &Move) -> (threat: Threat)
    requires
        tables.wf(),
        board.turn_idx < 2,
        is_square(mv.to),
        is_square(board.pieces[1 - board.turn_idx as int][PIECE_KING as int]),
    ensures
        threat == spec_move_threat(board, mv),
{
    let to_idx = bm_to_idx(mv.to);
    let opp_king_pos = board.pieces[1 - board.turn_idx][PIECE_KING];
    let king_idx = bm_to_idx(opp_king_pos);
    let next_base_moves = get_piece_base_tos(tables, mv.to_piece_idx, to_idx);
    proof {
        lemma_is_square(opp_king_pos);
        lemma_has_test(next_base_moves, king_idx as int);
        crate::bitmask::lemma_square(king_idx as int);
        crate::bitmask::lemma_only_square(opp_king_pos, king_idx as int);
    }
    if next_base_moves & opp_king_pos == 0 {
        return Threat::Absent;
    }
    if mv.to_piece_idx == PIECE_BISHOP || mv.to_piece_idx == PIECE_ROOK || mv.to_piece_idx
        == PIECE_QUEEN {
        let between_mask = get_between_mask_exclusive(tables, king_idx, to_idx);
        let in_the_way = board.combined_occupancy() & between_mask;
        let num_blockers = bm_count(in_the_way);
        proof {
            assert forall|c: int| 0 <= c < 64 implies has_sq(in_the_way, c) == (between(
                king_idx as int,
                to_idx as int,
                c,
            ) && stands_on(board, c)) by {
                crate::bitmask::lemma_has_and(board.occupancy[0] | board.occupancy[1], between_mask, c);
            }
            lemma_count_where(
                in_the_way,
                |c: int| between(king_idx as int, to_idx as int, c) && stands_on(board, c),
                64,
            );
        }
        if num_blockers == 0 {
            Threat::Check
        } else if num_blockers == 1 {
            Threat::Pin
        } else {
            Threat::Absent
        }
    } else {
        Threat::Check
    }
}

} // verus!
