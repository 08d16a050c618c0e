//! What holds of every move that can be made.

use vstd::prelude::*;
use crate::bitmask::{
    BitMask, has_sq, sq_mask, popcount, group_has_sq, lemma_is_square, lemma_count_below_remove,
    lemma_count_below_agree,
};
use crate::geometry::is_sq;
use crate::board::{Board, Move, PIECE_PAWN, PIECE_ROOK, rook_home};

verus! {

/// The mask `a` without the square `sq`, and how many squares it holds.
proof fn lemma_count_without(a: BitMask, sq: int)
    requires
        is_sq(sq),
    ensures
        forall|k: int| #![trigger has_sq(a & !sq_mask(sq), k)] has_sq(a & !sq_mask(sq), k) == (has_sq(a, k) && k != sq),
        popcount(a & !sq_mask(sq)) == popcount(a) - (if has_sq(a, sq) {
            1int
        } else {
            0int
        }),
{
    broadcast use group_has_sq;

    let b = a & !sq_mask(sq);
    if has_sq(a, sq) {
        lemma_count_below_remove(a, b, sq, 64);
    } else {
        lemma_count_below_agree(a, b, 64);
    }
}

/// The mask `a` with the square `sq`, and how many squares it holds.
proof fn lemma_count_with(a: BitMask, sq: int)
    requires
        is_sq(sq),
    ensures
        forall|k: int| #![trigger has_sq(a | sq_mask(sq), k)] has_sq(a | sq_mask(sq), k) == (has_sq(a, k) || k == sq),
        popcount(a | sq_mask(sq)) == popcount(a) + (if has_sq(a, sq) {
            0int
        } else {
            1int
        }),
{
    broadcast use group_has_sq;

    let b = a | sq_mask(sq);
    if has_sq(a, sq) {
        lemma_count_below_agree(a, b, 64);
    } else {
        lemma_count_below_remove(b, a, sq, 64);
    }
}

impl Board {
    /// In a position whose pieces and occupancy are in order, the occupancy
    /// of a side holds the squares of its pieces of every kind and no other
    /// square, and no square is in the occupancy of both sides.
    pub proof fn lemma_occupancy(&self)
        requires
            self.wf_pieces(),
            self.occupancy_ok(),
        ensures
            forall|t: int, sq: int|
                0 <= t < 2 ==> #[trigger] has_sq(self.occupancy[t], sq) == (exists|p: int|
                    0 <= p < 6 && #[trigger] self.piece_on(t, p, sq)),
            self.occupancy[0] & self.occupancy[1] == 0,
    {
        assert forall|t: int, sq: int| 0 <= t < 2 implies #[trigger] has_sq(self.occupancy[t], sq)
            == (exists|p: int| 0 <= p < 6 && #[trigger] self.piece_on(t, p, sq)) by {
            self.lemma_occ(t, sq);
        }
        let both = self.occupancy[0] & self.occupancy[1];
        assert forall|sq: int| 0 <= sq < 64 implies !has_sq(both, sq) by {
            crate::bitmask::lemma_has_and(self.occupancy[0], self.occupancy[1], sq);
            if has_sq(self.occupancy[0], sq) && has_sq(self.occupancy[1], sq) {
                let p = choose|p: int| 0 <= p < 6 && #[trigger] self.piece_on(0, p, sq);
                self.lemma_only_holder(0, p, sq);
            }
        }
        crate::bitmask::lemma_empty(both);
    }

    /// A square holds a piece after the move when it held one before and
    /// was not left, or was reached.
    pub proof fn lemma_moved_occ(&self, mv: &Move, after: &Board, sq: int)
        requires
            self.wf_core(),
            self.move_ok(mv),
            self.moved_to(mv, after),
            is_sq(sq),
        ensures
            has_sq(after.occ_all(), sq) == ((has_sq(self.occ_all(), sq) && sq != mv.from_sq() && !(
            mv.castles() && sq == rook_home(self.turn_idx as int, mv.castle_side())) && !(
            mv.takes_en_passant() && sq == self.en_passant_victim(mv))) || sq == mv.to_sq() || (
            mv.castles() && sq == mv.castle_rook_to())),
    {
        let m = self.turn_idx as int;
        let o = 1 - m;
        lemma_is_square(mv.from);
        lemma_is_square(mv.to);
        after.lemma_occ(0, sq);
        after.lemma_occ(1, sq);
        self.lemma_occ(0, sq);
        self.lemma_occ(1, sq);
        self.lemma_only_holder(m, mv.from_piece_idx as int, mv.from_sq());
        assert forall|t: int, p: int| 0 <= t < 2 && 0 <= p < 6 implies #[trigger] after.piece_on(
            t,
            p,
            sq,
        ) == self.moved_has(mv, t, p, sq) by {}
        if mv.castles() {
            self.lemma_only_holder(m, PIECE_ROOK as int, rook_home(m, mv.castle_side()));
        }
        if mv.takes_en_passant() {
            lemma_is_square(self.en_passant_mask);
            self.lemma_only_holder(o, PIECE_PAWN as int, self.en_passant_victim(mv));
        }
        if sq == mv.to_sq() {
            assert(after.piece_on(m, mv.to_piece_idx as int, sq));
        }
    }

    /// A move takes at most one piece off the board and puts none on it: the
    /// number of pieces after a move is that before it, or one less where the
    /// move captures.
    pub proof fn lemma_piece_count(&self, mv: &Move, after: &Board)
        requires
            self.wf_core(),
            self.move_ok(mv),
            self.moved_to(mv, after),
        ensures
            popcount(after.occ_all()) == popcount(self.occ_all()) - (if has_sq(
                self.occ_all(),
                mv.to_sq(),
            ) || mv.takes_en_passant() {
                1int
            } else {
                0int
            }),
    {
        let m = self.turn_idx as int;
        let f = mv.from_sq();
        let to = mv.to_sq();
        let a = self.occ_all();
        let b = after.occ_all();
        lemma_is_square(mv.from);
        lemma_is_square(mv.to);
        self.lemma_only_holder(m, mv.from_piece_idx as int, f);
        // The squares of the pieces that leave their squares, and of those
        // that come to new ones; where there is no second, the first again.
        let gone: int = if mv.castles() {
            rook_home(m, mv.castle_side())
        } else if mv.takes_en_passant() {
            self.en_passant_victim(mv)
        } else {
            f
        };
        let come: int = if mv.castles() {
            mv.castle_rook_to()
        } else {
            to
        };
        if mv.castles() {
            self.lemma_only_holder(m, PIECE_ROOK as int, gone);
        }
        if mv.takes_en_passant() {
            lemma_is_square(self.en_passant_mask);
            self.lemma_only_holder(1 - m, PIECE_PAWN as int, gone);
        }
        let lifted = a & !sq_mask(f);
        let bare = lifted & !sq_mask(gone);
        let cleared = bare & !sq_mask(to);
        let landed = cleared | sq_mask(to);
        let all = landed | sq_mask(come);
        lemma_count_without(a, f);
        lemma_count_without(lifted, gone);
        lemma_count_without(bare, to);
        lemma_count_with(cleared, to);
        lemma_count_with(landed, come);
        assert forall|sq: int| 0 <= sq < 64 implies has_sq(all, sq) == has_sq(b, sq) by {
            self.lemma_moved_occ(mv, after, sq);
        }
        lemma_count_below_agree(all, b, 64);
    }
}

} // verus!
