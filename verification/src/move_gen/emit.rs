//! Writing moves down: their kinds and flags.

use vstd::prelude::*;
use crate::bitmask::{
    BitMask, has_sq, sq_mask, is_square, lowest_sq, rank_of, lemma_is_square, lemma_square,
    lemma_has_test, lemma_nonempty, lemma_only_square, lemma_empty, lemma_remove_lowest, bm_shift,
    bm_make_row, bm_iter_bits,
};
use crate::geometry::is_sq;
use crate::board::{Board, Move, pawn_dy, PIECE_PAWN};

verus! {

/// Which flags each set of flags that a move can carry holds.
pub proof fn lemma_flag_bits()
    by (bit_vector)
    ensures
        0u8 & 1u8 == 0 && 0u8 & 2u8 == 0 && 0u8 & 4u8 == 0 && 0u8 & 8u8 == 0 && 0u8 & 16u8 == 0,
        1u8 & 1u8 != 0 && 1u8 & 2u8 == 0 && 1u8 & 4u8 == 0 && 1u8 & 8u8 == 0 && 1u8 & 16u8 == 0,
        2u8 & 1u8 == 0 && 2u8 & 2u8 != 0 && 2u8 & 4u8 == 0 && 2u8 & 8u8 == 0 && 2u8 & 16u8 == 0,
        5u8 & 1u8 != 0 && 5u8 & 2u8 == 0 && 5u8 & 4u8 != 0 && 5u8 & 8u8 == 0 && 5u8 & 16u8 == 0,
        8u8 & 1u8 == 0 && 8u8 & 2u8 == 0 && 8u8 & 4u8 == 0 && 8u8 & 8u8 != 0 && 8u8 & 16u8 == 0,
        9u8 & 1u8 != 0 && 9u8 & 2u8 == 0 && 9u8 & 4u8 == 0 && 9u8 & 8u8 != 0 && 9u8 & 16u8 == 0,
        16u8 & 1u8 == 0 && 16u8 & 2u8 == 0 && 16u8 & 4u8 == 0 && 16u8 & 8u8 == 0 && 16u8 & 16u8
            != 0,
        8u8 | 1u8 == 9 && 8u8 | 0u8 == 8 && 4u8 | 1u8 == 5,
{
}

pub proof fn lemma_push_contains<T>(s: Seq<T>, x: T, y: T)
    ensures
        s.push(x).contains(y) == (s.contains(y) || y == x),
{
    if s.contains(y) {
        let i = choose|i: int| 0 <= i < s.len() && s[i] == y;
        assert(s.push(x)[i] == y);
    }
    if y == x {
        assert(s.push(x)[s.len() as int] == y);
    }
    if s.push(x).contains(y) {
        let i = choose|i: int| 0 <= i < s.push(x).len() && s.push(x)[i] == y;
        if i < s.len() {
            assert(s[i] == y);
        }
    }
}

pub proof fn lemma_push_no_duplicates<T>(s: Seq<T>, x: T)
    requires
        s.no_duplicates(),
        !s.contains(x),
    ensures
        s.push(x).no_duplicates(),
{
    assert forall|i: int, j: int|
        0 <= i < s.push(x).len() && 0 <= j < s.push(x).len() && i != j implies s.push(x)[i]
        != s.push(x)[j] by {
        if i < s.len() && j < s.len() {
        } else if i < s.len() {
            assert(s[i] == s.push(x)[i]);
            assert(s.contains(s[i]));
        } else {
            assert(s[j] == s.push(x)[j]);
            assert(s.contains(s[j]));
        }
    }
}

impl Board {
    /// The kind after the move and the flags of the move of the piece of kind
    /// `p` between two squares, where the move does not promote.
    pub open spec fn plain_flags(&self, p: int, f: int, t: int) -> u8 {
        let takes: u8 = if self.captures_on(t) {
            1
        } else {
            0
        };
        if p == PIECE_PAWN {
            if has_sq(self.en_passant_mask, t) {
                5
            } else if t == f + 16 * pawn_dy(self.turn_idx as int) {
                2
            } else {
                takes
            }
        } else {
            takes
        }
    }

    /// The moves of the piece of kind `p` from the square of `from` to the
    /// square of `to`, as they are written down: the one move; or, for a
    /// pawn that reaches the last rank, the promotions to knight, bishop,
    /// rook and queen.
    pub open spec fn one_moves(&self, p: int, from: BitMask, to: BitMask) -> Seq<Move> {
        let t = lowest_sq(to);
        let f = lowest_sq(from);
        if p == PIECE_PAWN && rank_of(t) == Self::promotion_rank(self.turn_idx as int) {
            let flags: u8 = if self.captures_on(t) {
                9
            } else {
                8
            };
            seq![
                Move { from, to, from_piece_idx: 0, to_piece_idx: 1, flags },
                Move { from, to, from_piece_idx: 0, to_piece_idx: 2, flags },
                Move { from, to, from_piece_idx: 0, to_piece_idx: 3, flags },
                Move { from, to, from_piece_idx: 0, to_piece_idx: 4, flags },
            ]
        } else {
            seq![
                Move {
                    from,
                    to,
                    from_piece_idx: p as usize,
                    to_piece_idx: p as usize,
                    flags: self.plain_flags(p, f, t),
                },
            ]
        }
    }

    /// The moves of the piece of kind `p` from the square of `from` to the
    /// squares of `tos`, the lowest square first.
    pub open spec fn target_moves(&self, p: int, from: BitMask, tos: BitMask) -> Seq<Move>
        decreases tos,
    {
        if tos == 0 {
            Seq::empty()
        } else {
            let to = sq_mask(lowest_sq(tos));
            if tos & !to < tos {
                self.one_moves(p, from, to) + self.target_moves(p, from, tos & !to)
            } else {
                Seq::empty()
            }
        }
    }

    /// The move is one from the square of `from` to the square of `to` by the
    /// piece of kind `p`, with the kind and flags that such a move has.
    pub open spec fn writes(&self, p: int, from: BitMask, to: BitMask, mv: &Move) -> bool {
        mv.from == from && mv.to == to && mv.from_piece_idx == p && self.shape_ok(mv)
    }
}

/// Adds the move of the piece of kind `piece_idx` from `from` to `to`; for a
/// pawn that reaches the last rank, the four promotions.
fn emit_one(moves: &mut Vec<Move>, board: &Board, piece_idx: usize, from: BitMask, to: BitMask)
    requires
        board.turn_idx < 2,
        board.occupancy_ok(),
        piece_idx < 6,
        is_square(from),
        is_square(to),
        old(moves)@.no_duplicates(),
        forall|mv: Move|
            #![trigger old(moves)@.contains(mv)]
            old(moves)@.contains(mv) ==> !board.writes(piece_idx as int, from, to, &mv),
    ensures
        final(moves)@.no_duplicates(),
        forall|mv: Move|
            #![trigger final(moves)@.contains(mv)]
            final(moves)@.contains(mv) == (old(moves)@.contains(mv) || board.writes(
                piece_idx as int,
                from,
                to,
                &mv,
            )),
        final(moves)@ == old(moves)@ + board.one_moves(piece_idx as int, from, to),
{
    let ghost before = moves@;
    let ghost m = board.turn_idx as int;
    let ghost f = lowest_sq(from);
    let ghost t = lowest_sq(to);
    let turn_idx = board.turn_idx;
    proof {
        lemma_flag_bits();
        lemma_is_square(to);
        lemma_is_square(from);
        lemma_has_test(board.occupancy[1 - m], t);
    }
    let capture_flag: u8 = if (board.occupancy[1 - turn_idx] & to) != 0 {
        Move::FLAG_CAPTURE
    } else {
        0
    };
    if piece_idx == PIECE_PAWN {
        let promote_mask = if turn_idx == 0 {
            bm_make_row(7)
        } else {
            bm_make_row(0)
        };
        let pawn_advance_dy: i64 = if turn_idx == 0 {
            1
        } else {
            -1
        };
        let double_to = bm_shift(from, 0, pawn_advance_dy * 2);
        proof {
            lemma_has_test(promote_mask, t);
            lemma_has_test(board.en_passant_mask, t);
            let d = f + 16 * pawn_dy(m);
            assert forall|c: int| 0 <= c < 64 implies has_sq(double_to, c) == (c == d) by {}
            if is_sq(d) {
                lemma_only_square(double_to, d);
                lemma_square(d);
                lemma_square(t);
            } else {
                lemma_empty(double_to);
            }
            assert((to == double_to) == (t == d));
        }
        if (promote_mask & to) != 0 {
            let flags = Move::FLAG_PROMOTION | capture_flag;
            let knight = Move { from, to, from_piece_idx: PIECE_PAWN, to_piece_idx: 1, flags };
            let bishop = Move { from, to, from_piece_idx: PIECE_PAWN, to_piece_idx: 2, flags };
            let rook = Move { from, to, from_piece_idx: PIECE_PAWN, to_piece_idx: 3, flags };
            let queen = Move { from, to, from_piece_idx: PIECE_PAWN, to_piece_idx: 4, flags };
            moves.push(knight);
            moves.push(bishop);
            moves.push(rook);
            moves.push(queen);
            proof {
                assert(!before.contains(knight) && !before.contains(bishop) && !before.contains(
                    rook,
                ) && !before.contains(queen));
                lemma_push_no_duplicates(before, knight);
                lemma_push_contains(before, knight, bishop);
                lemma_push_no_duplicates(before.push(knight), bishop);
                lemma_push_contains(before, knight, rook);
                lemma_push_contains(before.push(knight), bishop, rook);
                lemma_push_no_duplicates(before.push(knight).push(bishop), rook);
                lemma_push_contains(before, knight, queen);
                lemma_push_contains(before.push(knight), bishop, queen);
                lemma_push_contains(before.push(knight).push(bishop), rook, queen);
                lemma_push_no_duplicates(before.push(knight).push(bishop).push(rook), queen);
                assert(moves@ =~= before + board.one_moves(piece_idx as int, from, to));
                assert forall|mv: Move|
                    #![trigger moves@.contains(mv)]
                    moves@.contains(mv) == (before.contains(mv) || board.writes(
                        piece_idx as int,
                        from,
                        to,
                        &mv,
                    )) by {
                    lemma_push_contains(before, knight, mv);
                    lemma_push_contains(before.push(knight), bishop, mv);
                    lemma_push_contains(before.push(knight).push(bishop), rook, mv);
                    lemma_push_contains(before.push(knight).push(bishop).push(rook), queen, mv);
                }
            }
        } else {
            let flags = if (board.en_passant_mask & to) != 0 {
                Move::FLAG_EN_PASSANT | Move::FLAG_CAPTURE
            } else if to == double_to {
                Move::FLAG_DOUBLE_PAWN_MOVE
            } else {
                capture_flag
            };
            let written = Move {
                from,
                to,
                from_piece_idx: PIECE_PAWN,
                to_piece_idx: PIECE_PAWN,
                flags,
            };
            moves.push(written);
            proof {
                assert(!before.contains(written));
                lemma_push_no_duplicates(before, written);
                assert(moves@ =~= before + board.one_moves(piece_idx as int, from, to));
                assert forall|mv: Move|
                    #![trigger moves@.contains(mv)]
                    moves@.contains(mv) == (before.contains(mv) || board.writes(
                        piece_idx as int,
                        from,
                        to,
                        &mv,
                    )) by {
                    lemma_push_contains(before, written, mv);
                }
            }
        }
    } else {
        let written = Move {
            from,
            to,
            from_piece_idx: piece_idx,
            to_piece_idx: piece_idx,
            flags: capture_flag,
        };
        moves.push(written);
        proof {
            assert(!before.contains(written));
            lemma_push_no_duplicates(before, written);
            assert(moves@ =~= before + board.one_moves(piece_idx as int, from, to));
            assert forall|mv: Move|
                #![trigger moves@.contains(mv)]
                moves@.contains(mv) == (before.contains(mv) || board.writes(
                    piece_idx as int,
                    from,
                    to,
                    &mv,
                )) by {
                lemma_push_contains(before, written, mv);
            }
        }
    }
}

/// Adds the moves of the piece of kind `piece_idx` from `from` to each square
/// of `tos`.
pub fn emit_moves(
    moves: &mut Vec<Move>,
    board: &Board,
    piece_idx: usize,
    from: BitMask,
    tos: BitMask,
)
    requires
        board.turn_idx < 2,
        board.occupancy_ok(),
        piece_idx < 6,
        is_square(from),
        old(moves)@.no_duplicates(),
        forall|mv: Move|
            #![trigger old(moves)@.contains(mv)]
            old(moves)@.contains(mv) ==> !board.writes(piece_idx as int, from, mv.to, &mv),
    ensures
        final(moves)@.no_duplicates(),
        forall|mv: Move|
            #![trigger final(moves)@.contains(mv)]
            final(moves)@.contains(mv) == (old(moves)@.contains(mv) || (is_square(mv.to) && has_sq(
                tos,
                mv.to_sq(),
            ) && board.writes(piece_idx as int, from, mv.to, &mv))),
        final(moves)@ == old(moves)@ + board.target_moves(piece_idx as int, from, tos),
{
    let mut itr = bm_iter_bits(tos);
    loop
        invariant
            board.turn_idx < 2,
            board.occupancy_ok(),
            piece_idx < 6,
            is_square(from),
            moves@.no_duplicates(),
            forall|mv: Move|
                #![trigger old(moves)@.contains(mv)]
                old(moves)@.contains(mv) ==> !board.writes(piece_idx as int, from, mv.to, &mv),
            old(moves)@ + board.target_moves(piece_idx as int, from, tos) == moves@
                + board.target_moves(piece_idx as int, from, itr.remaining_mask),
            forall|a: int| has_sq(itr.remaining_mask, a) ==> has_sq(tos, a),
            forall|mv: Move|
                #![trigger moves@.contains(mv)]
                moves@.contains(mv) == (old(moves)@.contains(mv) || (is_square(mv.to) && has_sq(
                    tos,
                    mv.to_sq(),
                ) && !has_sq(itr.remaining_mask, mv.to_sq()) && board.writes(
                    piece_idx as int,
                    from,
                    mv.to,
                    &mv,
                ))),
        ensures
            itr.remaining_mask == 0,
            moves@.no_duplicates(),
            old(moves)@ + board.target_moves(piece_idx as int, from, tos) == moves@
                + board.target_moves(piece_idx as int, from, itr.remaining_mask),
            forall|mv: Move|
                #![trigger moves@.contains(mv)]
                moves@.contains(mv) == (old(moves)@.contains(mv) || (is_square(mv.to) && has_sq(
                    tos,
                    mv.to_sq(),
                ) && !has_sq(itr.remaining_mask, mv.to_sq()) && board.writes(
                    piece_idx as int,
                    from,
                    mv.to,
                    &mv,
                ))),
        decreases itr.remaining_mask,
    {
        let ghost remaining = itr.remaining_mask;
        let ghost before = moves@;
        match itr.next() {
            Some(to) => {
                proof {
                    lemma_nonempty(remaining);
                    lemma_square(lowest_sq(remaining));
                    assert forall|mv: Move|
                        #![trigger before.contains(mv)]
                        before.contains(mv) implies !board.writes(
                        piece_idx as int,
                        from,
                        to,
                        &mv,
                    ) by {
                        if board.writes(piece_idx as int, from, to, &mv) {
                            assert(mv.to == to);
                            assert(old(moves)@.contains(mv) ==> !board.writes(
                                piece_idx as int,
                                from,
                                mv.to,
                                &mv,
                            ));
                        }
                    }
                }
                emit_one(moves, board, piece_idx, from, to);
                proof {
                    lemma_remove_lowest(remaining);
                    assert(before + board.target_moves(piece_idx as int, from, remaining)
                        =~= moves@ + board.target_moves(
                        piece_idx as int,
                        from,
                        itr.remaining_mask,
                    ));
                    let t0 = lowest_sq(remaining);
                    assert forall|mv: Move|
                        #![trigger moves@.contains(mv)]
                        moves@.contains(mv) == (old(moves)@.contains(mv) || (is_square(mv.to)
                            && has_sq(tos, mv.to_sq()) && !has_sq(itr.remaining_mask, mv.to_sq())
                            && board.writes(piece_idx as int, from, mv.to, &mv))) by {
                        assert(before.contains(mv) == (old(moves)@.contains(mv) || (is_square(
                            mv.to,
                        ) && has_sq(tos, mv.to_sq()) && !has_sq(remaining, mv.to_sq())
                            && board.writes(piece_idx as int, from, mv.to, &mv))));
                        if is_square(mv.to) && mv.to_sq() == t0 {
                            assert(mv.to == to);
                        }
                    }
                }
            },
            None => {
                break ;
            },
        }
    }
    proof {
        assert forall|a: int| !has_sq(0, a) by {
            crate::bitmask::lemma_has_zero(a);
        }
        assert(moves@ + board.target_moves(piece_idx as int, from, 0) =~= moves@);
    }
}

} // verus!
