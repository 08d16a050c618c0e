//! Making a move on the board.

use vstd::prelude::*;
use crate::bitmask::{
    BitMask, has_sq, sq_mask, is_square, lowest_sq, group_has_sq, lemma_is_square, lemma_square,
    lemma_ext, lemma_has_test, lemma_only_square, bm_to_idx, bm_shift,
};
use crate::geometry::is_sq;
use crate::board::{
    Board, Move, pawn_dy, king_home, rook_home, PIECE_PAWN, PIECE_ROOK, PIECE_KING, NUM_PIECES,
};
use crate::zobrist::{
    ZobristKeys, pieces_keys, lemma_pieces_keys_toggle, spec_hash_castle_rights,
    spec_hash_en_passant, hash_piece, hash_castle_rights, hash_en_passant, hash_turn,
};
use crate::Tables;

verus! {

proof fn bv_xor_step(h: u64, p: u64, k: u64)
    by (bit_vector)
    ensures
        (h ^ k) ^ (p ^ k) == h ^ p,
{
}

proof fn bv_mask_order(a: u64, b: u64)
    by (bit_vector)
    requires
        a < 64,
        b < 64,
    ensures
        ((1u64 << a) > (1u64 << b)) == (a > b),
        1u64 << 0 == 1,
        1u64 << 7 == 0x80,
        1u64 << 56 == 0x0100_0000_0000_0000,
        1u64 << 63 == 0x8000_0000_0000_0000,
{
}

impl Board {
    /// All but the pieces, the occupancy and the hash are those of `other`.
    pub open spec fn same_rest(&self, other: &Board) -> bool {
        &&& self.turn_idx == other.turn_idx
        &&& self.attacks == other.attacks
        &&& self.checkers == other.checkers
        &&& self.pinned == other.pinned
        &&& self.en_passant_mask == other.en_passant_mask
        &&& self.castle_rights == other.castle_rights
        &&& self.half_move_counter == other.half_move_counter
    }

    /// The part of the hash that does not come from the pieces.
    pub open spec fn hash_rest(&self, keys: &ZobristKeys) -> u64 {
        self.hash ^ pieces_keys(keys, self.pieces, 12)
    }

    /// Takes the piece of side `t` and kind `p` off the square of `bit`.
    fn lift_piece(&mut self, tables: &Tables, t: usize, p: usize, bit: BitMask)
        requires
            t < 2,
            p < 6,
            is_square(bit),
            old(self).piece_on(t as int, p as int, lowest_sq(bit)),
            old(self).pieces_disjoint(),
            old(self).occupancy_ok(),
        ensures
            final(self).same_rest(old(self)),
            forall|t2: int, p2: int, sq: int|
                0 <= t2 < 2 && 0 <= p2 < 6 ==> #[trigger] final(self).piece_on(t2, p2, sq) == (old(self).piece_on(t2, p2, sq) && !(t2 == t && p2 == p && sq == lowest_sq(bit))),
            forall|t2: int, p2: int|
                0 <= t2 < 2 && 0 <= p2 < 6 && !(t2 == t && p2 == p) ==> #[trigger] final(self).pieces[t2][p2] == old(self).pieces[t2][p2],
            final(self).pieces_disjoint(),
            final(self).occupancy_ok(),
            final(self).hash_rest(&tables.zobrist) == old(self).hash_rest(&tables.zobrist),
    {
        let ghost before = *self;
        let ghost s = lowest_sq(bit);
        proof {
            lemma_is_square(bit);
        }
        let key = hash_piece(&tables.zobrist, t, p, bm_to_idx(bit));
        self.pieces[t][p] &= !bit;
        self.occupancy[t] &= !bit;
        self.hash ^= key;
        proof {
            broadcast use group_has_sq;

            assert forall|t2: int, p2: int, sq: int| 0 <= t2 < 2 && 0 <= p2 < 6 implies #[trigger]
                self.piece_on(t2, p2, sq) == (before.piece_on(t2, p2, sq) && !(t2 == t && p2 == p
                && sq == s)) by {}
            assert(self.pieces_disjoint()) by {
                reveal(Board::pieces_disjoint);
            }
            assert(self.occupancy[t as int] == self.occ(t as int)) by {
                assert forall|sq: int| 0 <= sq < 64 implies has_sq(self.occupancy[t as int], sq)
                    == has_sq(self.occ(t as int), sq) by {
                    self.lemma_occ(t as int, sq);
                    before.lemma_occ(t as int, sq);
                    if sq == s {
                        before.lemma_only_holder(t as int, p as int, s);
                    }
                }
                lemma_ext(self.occupancy[t as int], self.occ(t as int));
            }
            assert(self.occ(1 - t) == before.occ(1 - t));
            lemma_pieces_keys_toggle(
                &tables.zobrist,
                before.pieces,
                self.pieces,
                t as int,
                p as int,
                s,
                12,
            );
            bv_xor_step(before.hash, pieces_keys(&tables.zobrist, before.pieces, 12), key);
        }
    }

    /// Puts a piece of side `t` and kind `p` on the empty square of `bit`.
    fn drop_piece(&mut self, tables: &Tables, t: usize, p: usize, bit: BitMask)
        requires
            t < 2,
            p < 6,
            is_square(bit),
            !has_sq(old(self).occ_all(), lowest_sq(bit)),
            old(self).pieces_disjoint(),
            old(self).occupancy_ok(),
        ensures
            final(self).same_rest(old(self)),
            forall|t2: int, p2: int, sq: int|
                0 <= t2 < 2 && 0 <= p2 < 6 && is_sq(sq) ==> #[trigger] final(self).piece_on(
                    t2,
                    p2,
                    sq,
                ) == (old(self).piece_on(t2, p2, sq) || (t2 == t && p2 == p && sq == lowest_sq(
                    bit,
                ))),
            forall|t2: int, p2: int|
                0 <= t2 < 2 && 0 <= p2 < 6 && !(t2 == t && p2 == p) ==> #[trigger] final(self).pieces[t2][p2] == old(self).pieces[t2][p2],
            final(self).pieces_disjoint(),
            final(self).occupancy_ok(),
            final(self).hash_rest(&tables.zobrist) == old(self).hash_rest(&tables.zobrist),
    {
        let ghost before = *self;
        let ghost s = lowest_sq(bit);
        proof {
            lemma_is_square(bit);
            before.lemma_occ(0, s);
            before.lemma_occ(1, s);
        }
        let key = hash_piece(&tables.zobrist, t, p, bm_to_idx(bit));
        self.pieces[t][p] |= bit;
        self.occupancy[t] |= bit;
        self.hash ^= key;
        proof {
            broadcast use group_has_sq;

            assert forall|t2: int, p2: int, sq: int|
                0 <= t2 < 2 && 0 <= p2 < 6 && is_sq(sq) implies #[trigger] self.piece_on(t2, p2, sq)
                == (before.piece_on(t2, p2, sq) || (t2 == t && p2 == p && sq == s)) by {}
            assert(self.pieces_disjoint()) by {
                reveal(Board::pieces_disjoint);
                assert forall|t1: int, p1: int, t2: int, p2: int, sq: int|
                    #![trigger self.piece_on(t1, p1, sq), self.piece_on(t2, p2, sq)]
                    0 <= t1 < 2 && 0 <= p1 < 6 && 0 <= t2 < 2 && 0 <= p2 < 6 && (t1 != t2 || p1
                        != p2) implies !(self.piece_on(t1, p1, sq) && self.piece_on(t2, p2, sq)) by {
                    if sq == s {
                        before.lemma_occ(0, s);
                        before.lemma_occ(1, s);
                    }
                }
            }
            assert(self.occupancy[t as int] == self.occ(t as int)) by {
                assert forall|sq: int| 0 <= sq < 64 implies has_sq(self.occupancy[t as int], sq)
                    == has_sq(self.occ(t as int), sq) by {
                    self.lemma_occ(t as int, sq);
                    before.lemma_occ(t as int, sq);
                }
                lemma_ext(self.occupancy[t as int], self.occ(t as int));
            }
            assert(self.occ(1 - t) == before.occ(1 - t));
            lemma_pieces_keys_toggle(
                &tables.zobrist,
                before.pieces,
                self.pieces,
                t as int,
                p as int,
                s,
                12,
            );
            bv_xor_step(before.hash, pieces_keys(&tables.zobrist, before.pieces, 12), key);
        }
    }

    /// Takes whatever piece of side `t` stands on the square of `bit` off the board.
    fn capture_on(&mut self, tables: &Tables, t: usize, bit: BitMask)
        requires
            t < 2,
            is_square(bit),
            old(self).pieces_disjoint(),
            old(self).occupancy_ok(),
        ensures
            final(self).same_rest(old(self)),
            forall|t2: int, p2: int, sq: int|
                0 <= t2 < 2 && 0 <= p2 < 6 ==> #[trigger] final(self).piece_on(t2, p2, sq) == (old(self).piece_on(t2, p2, sq) && !(t2 == t && sq == lowest_sq(bit))),
            forall|p2: int|
                0 <= p2 < 6 ==> #[trigger] final(self).pieces[1 - t][p2] == old(self).pieces[1
                    - t][p2],
            final(self).pieces_disjoint(),
            final(self).occupancy_ok(),
            final(self).hash_rest(&tables.zobrist) == old(self).hash_rest(&tables.zobrist),
    {
        let ghost s = lowest_sq(bit);
        proof {
            lemma_is_square(bit);
        }
        let mut p: usize = 0;
        while p < NUM_PIECES
            invariant
                t < 2,
                p <= 6,
                is_square(bit),
                s == lowest_sq(bit),
                is_sq(s),
                self.same_rest(old(self)),
                forall|t2: int, p2: int, sq: int|
                    0 <= t2 < 2 && 0 <= p2 < 6 ==> #[trigger] self.piece_on(t2, p2, sq) == (old(self).piece_on(t2, p2, sq) && !(t2 == t && p2 < p && sq == s)),
                forall|p2: int|
                    0 <= p2 < 6 ==> #[trigger] self.pieces[1 - t][p2] == old(self).pieces[1
                        - t][p2],
                self.pieces_disjoint(),
                self.occupancy_ok(),
                self.hash_rest(&tables.zobrist) == old(self).hash_rest(&tables.zobrist),
            decreases 6 - p,
        {
            proof {
                lemma_has_test(self.pieces[t as int][p as int], s);
            }
            if (self.pieces[t][p] & bit) != 0 {
                self.lift_piece(tables, t, p, bit);
            }
            p += 1;
        }
    }

    /// Moves the pieces that the move moves and takes off those that it
    /// takes, keeping occupancy and hash in step.
    fn move_pieces(&mut self, tables: &Tables, mv: &Move)
        requires
            tables.wf(),
            old(self).wf_core(),
            old(self).occupancy_ok(),
            old(self).move_ok(mv),
        ensures
            final(self).same_rest(old(self)),
            forall|t: int, p: int, sq: int|
                0 <= t < 2 && 0 <= p < 6 && is_sq(sq) ==> #[trigger] final(self).piece_on(t, p, sq)
                    == old(self).moved_has(mv, t, p, sq),
            final(self).pieces_disjoint(),
            final(self).occupancy_ok(),
            final(self).hash_rest(&tables.zobrist) == old(self).hash_rest(&tables.zobrist),
    {
        let ghost before = *self;
        let m = self.turn_idx;
        let o = 1 - m;
        let ghost f = mv.from_sq();
        let ghost to = mv.to_sq();
        let towards: i64 = if m == 0 {
            -1
        } else {
            1
        };
        proof {
            lemma_is_square(mv.from);
            lemma_is_square(mv.to);
            before.lemma_occ(m as int, to);
            before.lemma_occ(m as int, f);
            before.lemma_occ(o as int, f);
            before.lemma_only_holder(m as int, mv.from_piece_idx as int, f);
        }
        self.capture_on(tables, o, mv.to);
        self.lift_piece(tables, m, mv.from_piece_idx, mv.from);
        proof {
            self.lemma_occ(0, to);
            self.lemma_occ(1, to);
        }
        self.drop_piece(tables, m, mv.to_piece_idx, mv.to);
        let ghost mid = *self;
        assert forall|t: int, p: int, sq: int|
            0 <= t < 2 && 0 <= p < 6 && is_sq(sq) implies #[trigger] mid.piece_on(t, p, sq) == (
        if t == m {
            (before.piece_on(t, p, sq) && sq != f) || (p == mv.to_piece_idx && sq == to)
        } else {
            before.piece_on(t, p, sq) && sq != to
        }) by {
            if t == m && sq == f {
                before.lemma_only_holder(m as int, mv.from_piece_idx as int, f);
            }
        }
        if mv.has_flag(Move::FLAG_DOUBLE_PAWN_MOVE) {
        } else if mv.has_flag(Move::FLAG_EN_PASSANT) {
            // The pawn taken stands behind the square that the capture lands on.
            let en_passant_pos = bm_shift(mv.to, 0, towards);
            proof {
                let v = before.en_passant_victim(mv);
                assert(is_sq(v));
                assert forall|k: int| 0 <= k < 64 implies has_sq(en_passant_pos, k) == (k == v) by {}
                lemma_only_square(en_passant_pos, v);
                lemma_square(v);
                assert(before.piece_on(o as int, PIECE_PAWN as int, v));
            }
            self.lift_piece(tables, o, PIECE_PAWN, en_passant_pos);
        } else if mv.has_flag(Move::FLAG_CASTLE) {
            // The rook comes from its corner to the king's other side.
            let castle_right: bool = mv.to > mv.from;
            let rook_from: BitMask = if m == 0 {
                if castle_right {
                    0x80
                } else {
                    1
                }
            } else {
                if castle_right {
                    0x8000_0000_0000_0000
                } else {
                    0x0100_0000_0000_0000
                }
            };
            let rook_to = if castle_right {
                bm_shift(mv.to, -1, 0)
            } else {
                bm_shift(mv.to, 1, 0)
            };
            proof {
                bv_mask_order(to as u64, f as u64);
                let rf = rook_home(m as int, mv.castle_side());
                let rt = mv.castle_rook_to();
                assert(rook_from == sq_mask(rf));
                lemma_square(rf);
                assert forall|k: int| 0 <= k < 64 implies has_sq(rook_to, k) == (k == rt) by {}
                lemma_only_square(rook_to, rt);
                lemma_square(rt);
                before.lemma_occ(0, rt);
                before.lemma_occ(1, rt);
            }
            self.lift_piece(tables, m, PIECE_ROOK, rook_from);
            proof {
                self.lemma_occ(0, mv.castle_rook_to());
                self.lemma_occ(1, mv.castle_rook_to());
            }
            self.drop_piece(tables, m, PIECE_ROOK, rook_to);
        }
    }
}

impl Board {
    /// A move that can be made leaves the pieces, the castling rights and the
    /// en-passant square in order.
    pub proof fn lemma_moved_wf(&self, mv: &Move, after: &Board)
        requires
            self.wf_core(),
            self.move_ok(mv),
            self.moved_to(mv, after),
        ensures
            after.wf_core(),
    {
        let m = self.turn_idx as int;
        let o = 1 - m;
        let f = mv.from_sq();
        let to = mv.to_sq();
        let fp = mv.from_piece_idx as int;
        let tp = mv.to_piece_idx as int;
        lemma_is_square(mv.from);
        lemma_is_square(mv.to);
        self.lemma_only_holder(m, fp, f);
        self.lemma_occ(m, to);
        self.lemma_occ(o, to);
        let rt = mv.castle_rook_to();
        self.lemma_occ(0, rt);
        self.lemma_occ(1, rt);
        assert(after.pieces_disjoint()) by {
            reveal(Board::pieces_disjoint);
            assert forall|t1: int, p1: int, t2: int, p2: int, sq: int|
                #![trigger after.piece_on(t1, p1, sq), after.piece_on(t2, p2, sq)]
                0 <= t1 < 2 && 0 <= p1 < 6 && 0 <= t2 < 2 && 0 <= p2 < 6 && (t1 != t2 || p1 != p2)
                implies !(after.piece_on(t1, p1, sq) && after.piece_on(t2, p2, sq)) by {
                if after.piece_on(t1, p1, sq) && after.piece_on(t2, p2, sq) {
                    assert(self.moved_has(mv, t1, p1, sq));
                    assert(self.moved_has(mv, t2, p2, sq));
                    self.lemma_occ(0, sq);
                    self.lemma_occ(1, sq);
                    assert(self.piece_on(t1, p1, sq) ==> !self.piece_on(t2, p2, sq));
                }
            }
        }
        // The kings.
        let k_m = self.king_sq(m);
        let k_o = self.king_sq(o);
        lemma_is_square(self.pieces[m][PIECE_KING as int]);
        lemma_is_square(self.pieces[o][PIECE_KING as int]);
        assert(self.piece_on(m, PIECE_KING as int, k_m));
        assert(self.piece_on(o, PIECE_KING as int, k_o));
        let new_k_m = if fp == PIECE_KING {
            to
        } else {
            k_m
        };
        assert forall|sq: int| 0 <= sq < 64 implies has_sq(after.pieces[m][PIECE_KING as int], sq)
            == (sq == new_k_m) by {
            assert(after.piece_on(m, PIECE_KING as int, sq) == self.moved_has(
                mv,
                m,
                PIECE_KING as int,
                sq,
            ));
            assert(self.piece_on(m, PIECE_KING as int, sq) == (sq == k_m));
        }
        lemma_only_square(after.pieces[m][PIECE_KING as int], new_k_m);
        assert forall|sq: int| 0 <= sq < 64 implies has_sq(after.pieces[o][PIECE_KING as int], sq)
            == (sq == k_o) by {
            assert(after.piece_on(o, PIECE_KING as int, sq) == self.moved_has(
                mv,
                o,
                PIECE_KING as int,
                sq,
            ));
            assert(self.piece_on(o, PIECE_KING as int, sq) == (sq == k_o));
        }
        lemma_only_square(after.pieces[o][PIECE_KING as int], k_o);
        // The castling rights.
        assert forall|t: int, side: int|
            0 <= t < 2 && 0 <= side < 2 && #[trigger] after.castle_rights[t][side]
            implies after.piece_on(t, PIECE_KING as int, king_home(t)) && after.piece_on(
            t,
            PIECE_ROOK as int,
            rook_home(t, side),
        ) by {
            assert(self.moved_right(mv, t, side));
            assert(self.castle_rights[t][side]);
            assert(self.piece_on(t, PIECE_KING as int, king_home(t)));
            assert(self.piece_on(t, PIECE_ROOK as int, rook_home(t, side)));
            assert(after.piece_on(t, PIECE_KING as int, king_home(t)) == self.moved_has(
                mv,
                t,
                PIECE_KING as int,
                king_home(t),
            ));
            assert(after.piece_on(t, PIECE_ROOK as int, rook_home(t, side)) == self.moved_has(
                mv,
                t,
                PIECE_ROOK as int,
                rook_home(t, side),
            ));
        }
        // The en-passant square.
        if mv.doubles() {
            let e = to - 8 * pawn_dy(m);
            assert(e == f + 8 * pawn_dy(m));
            assert(is_sq(f) && is_sq(to));
            lemma_square(e);
            self.lemma_occ(0, e);
            self.lemma_occ(1, e);
            after.lemma_occ(0, e);
            after.lemma_occ(1, e);
            assert forall|t: int, p: int| 0 <= t < 2 && 0 <= p < 6 implies !#[trigger]
                after.piece_on(t, p, e) by {
                assert(after.piece_on(t, p, e) == self.moved_has(mv, t, p, e));
            }
            assert(after.piece_on(m, PIECE_PAWN as int, to) == self.moved_has(
                mv,
                m,
                PIECE_PAWN as int,
                to,
            ));
            assert(after.en_passant_ok());
        }
    }

    /// Sets the en-passant square, the castling rights and the half-move
    /// counter as they are after the move. `is_capture` says whether the move
    /// takes a piece.
    fn note_move(&mut self, mv: &Move, is_capture: bool)
        requires
            old(self).turn_idx < 2,
            is_square(mv.from),
            is_square(mv.to),
            mv.doubles() ==> is_sq(mv.to_sq() - 8 * pawn_dy(old(self).turn_idx as int)),
        ensures
            final(self).turn_idx == old(self).turn_idx,
            final(self).pieces == old(self).pieces,
            final(self).occupancy == old(self).occupancy,
            final(self).hash == old(self).hash,
            final(self).attacks == old(self).attacks,
            final(self).pinned == old(self).pinned,
            final(self).checkers == old(self).checkers,
            forall|t: int, side: int|
                0 <= t < 2 && 0 <= side < 2 ==> #[trigger] final(self).castle_rights[t][side]
                    == old(self).moved_right(mv, t, side),
            final(self).en_passant_mask == old(self).moved_en_passant(mv),
            final(self).half_move_counter == (if is_capture || mv.from_piece_idx == PIECE_PAWN {
                0int
            } else if old(self).half_move_counter < 255 {
                old(self).half_move_counter + 1
            } else {
                255int
            }),
    {
        let m = self.turn_idx;
        self.en_passant_mask = passed_square(mv, m);
        let king_moved = mv.from_piece_idx == PIECE_KING;
        let touched = mv.to | mv.from;
        proof {
            lemma_touches(mv.from, mv.to, 0);
            lemma_touches(mv.from, mv.to, 7);
            lemma_touches(mv.from, mv.to, 56);
            lemma_touches(mv.from, mv.to, 63);
            bv_mask_order(0, 0);
        }
        // A king's move ends both rights of its side; a move from or to a
        // rook's corner ends the right to castle there.
        let white_queen = self.castle_rights[0][0] && !(king_moved && m == 0) && (touched & 1) == 0;
        let white_king = self.castle_rights[0][1] && !(king_moved && m == 0) && (touched & 0x80)
            == 0;
        let black_queen = self.castle_rights[1][0] && !(king_moved && m == 1) && (touched
            & 0x0100_0000_0000_0000) == 0;
        let black_king = self.castle_rights[1][1] && !(king_moved && m == 1) && (touched
            & 0x8000_0000_0000_0000) == 0;
        self.castle_rights = [[white_queen, white_king], [black_queen, black_king]];
        if is_capture || mv.from_piece_idx == PIECE_PAWN {
            self.half_move_counter = 0;
        } else if self.half_move_counter < 255 {
            self.half_move_counter += 1;
        }
    }

    /// Ends a move or a pass of the side to move: its attacks, pins and checks
    /// are computed anew, the turn goes to the other side, and the keys of the
    /// rights, the en-passant square and the turn enter the hash.
    fn close_move(&mut self, tables: &Tables)
        requires
            tables.wf(),
            old(self).wf_pieces(),
            old(self).en_passant_mask == 0 || is_square(old(self).en_passant_mask),
            old(self).occupancy_ok(),
        ensures
            final(self).turn_idx == 1 - old(self).turn_idx,
            final(self).pieces == old(self).pieces,
            final(self).occupancy == old(self).occupancy,
            final(self).castle_rights == old(self).castle_rights,
            final(self).en_passant_mask == old(self).en_passant_mask,
            final(self).half_move_counter == old(self).half_move_counter,
            final(self).hash == ((old(self).hash ^ spec_hash_castle_rights(
                &tables.zobrist,
                old(self).castle_rights,
            )) ^ spec_hash_en_passant(&tables.zobrist, old(self).en_passant_mask))
                ^ tables.zobrist.turn,
            final(self).fresh(),
            final(self).occupancy_ok(),
            final(self).pieces_disjoint(),
            final(self).attacks[final(self).turn_idx as int] == old(self).attacks[final(self).turn_idx as int],
            final(self).pinned[old(self).turn_idx as int] == old(self).pinned[old(self).turn_idx as int],
    {
        let ghost before = *self;
        let keys = &tables.zobrist;
        let m = self.turn_idx;
        self.update_attacks(tables, m);
        let ghost mid = *self;
        self.turn_idx = 1 - m;
        self.hash ^= hash_castle_rights(keys, self.castle_rights);
        self.hash ^= hash_en_passant(keys, self.en_passant_mask);
        self.hash ^= hash_turn(keys);
        proof {
            self.lemma_same_pieces(&mid);
            self.lemma_same_pieces(&before);
            self.lemma_disjoint_same(&before);
        }
    }

    /// Makes the move `mv`: moves the piece, takes what it takes off the
    /// board, moves the rook of a castling king, sets the en-passant square
    /// after a double step, drops the castling rights that are lost, counts
    /// the half-move, and brings occupancy, hash, and the attacks, pins and
    /// checks of the side that moved up to date.
    pub fn do_move(&mut self, tables: &Tables, mv: &Move)
        requires
            tables.wf(),
            old(self).inv(&tables.zobrist),
            old(self).move_ok(mv),
        ensures
            old(self).moved_to(mv, final(self)),
            final(self).inv(&tables.zobrist),
            final(self).attacks[final(self).turn_idx as int] == old(self).attacks[final(self).turn_idx as int],
            final(self).pinned[old(self).turn_idx as int] == old(self).pinned[old(self).turn_idx as int],
            *final(self) == old(self).spec_do_move(&tables.zobrist, mv),
    {
        let ghost before = *self;
        let keys = &tables.zobrist;
        let m = self.turn_idx;
        let o = 1 - m;
        let ghost turn_key: u64 = if m == 1 {
            keys.turn
        } else {
            0
        };
        proof {
            lemma_is_square(mv.from);
            lemma_is_square(mv.to);
            lemma_has_test(self.occupancy[o as int], mv.to_sq());
        }
        // The keys of the rights and the en-passant square before the move.
        let rights_key = hash_castle_rights(keys, self.castle_rights);
        let en_passant_key = hash_en_passant(keys, self.en_passant_mask);
        let is_capture = (self.occupancy[o] & mv.to) != 0;
        self.move_pieces(tables, mv);
        let ghost moved = *self;
        self.note_move(mv, is_capture);
        let ghost noted = *self;
        let ghost flipped = Board { turn_idx: o, ..noted };
        proof {
            assert(before.moved_to(mv, &flipped)) by {
                assert forall|t: int, p: int, sq: int|
                    0 <= t < 2 && 0 <= p < 6 && is_sq(sq) implies #[trigger] flipped.piece_on(
                    t,
                    p,
                    sq,
                ) == before.moved_has(mv, t, p, sq) by {
                    assert(moved.piece_on(t, p, sq) == flipped.piece_on(t, p, sq));
                }
                assert forall|t: int, side: int| 0 <= t < 2 && 0 <= side < 2 implies #[trigger]
                    flipped.castle_rights[t][side] == before.moved_right(mv, t, side) by {
                    assert(noted.castle_rights[t][side] == moved.moved_right(mv, t, side));
                }
            }
            before.lemma_moved_wf(mv, &flipped);
        }
        // The old keys of the rights and the en-passant square leave the hash.
        self.hash ^= rights_key;
        self.hash ^= en_passant_key;
        let ghost opened = *self;
        proof {
            opened.lemma_wf_core_turn(&flipped);
            opened.lemma_same_pieces(&noted);
            if mv.doubles() {
                lemma_square(mv.to_sq() - 8 * pawn_dy(m as int));
            }
        }
        self.close_move(tables);
        proof {
            bv_xor_move(
                before.hash,
                pieces_keys(keys, before.pieces, 12),
                moved.hash,
                pieces_keys(keys, moved.pieces, 12),
                rights_key,
                en_passant_key,
                turn_key,
                spec_hash_castle_rights(keys, self.castle_rights),
                spec_hash_en_passant(keys, self.en_passant_mask),
                keys.turn,
            );
            self.lemma_wf_core_same(&flipped);
            assert(before.moved_to(mv, self)) by {
                assert forall|t: int, p: int, sq: int|
                    0 <= t < 2 && 0 <= p < 6 && is_sq(sq) implies #[trigger] self.piece_on(t, p, sq)
                    == before.moved_has(mv, t, p, sq) by {
                    assert(flipped.piece_on(t, p, sq) == self.piece_on(t, p, sq));
                }
                assert forall|t: int, side: int| 0 <= t < 2 && 0 <= side < 2 implies #[trigger]
                    self.castle_rights[t][side] == before.moved_right(mv, t, side) by {
                    assert(flipped.castle_rights[t][side] == self.castle_rights[t][side]);
                }
            }
            assert(before.is_do_move(keys, mv, self));
            before.lemma_do_move_unique(keys, mv, self, &before.spec_do_move(keys, mv));
        }
    }

    /// Passes the turn without a move: the en-passant square goes, the side
    /// to move changes, and the hash and the attacks, pins and checks of the
    /// side that passed are brought up to date.
    pub fn do_null_move(&mut self, tables: &Tables)
        requires
            tables.wf(),
            old(self).inv(&tables.zobrist),
        ensures
            old(self).passed_to(final(self)),
            final(self).inv(&tables.zobrist),
            final(self).occupancy == old(self).occupancy,
            final(self).attacks[final(self).turn_idx as int] == old(self).attacks[final(self).turn_idx as int],
            final(self).pinned[old(self).turn_idx as int] == old(self).pinned[old(self).turn_idx as int],
    {
        let ghost before = *self;
        let keys = &tables.zobrist;
        let ghost turn_key: u64 = if self.turn_idx == 1 {
            keys.turn
        } else {
            0
        };
        // The old keys of the rights and the en-passant square leave the hash.
        let rights_key = hash_castle_rights(keys, self.castle_rights);
        let en_passant_key = hash_en_passant(keys, self.en_passant_mask);
        self.hash ^= rights_key;
        self.hash ^= en_passant_key;
        self.en_passant_mask = 0;
        let ghost opened = *self;
        proof {
            opened.lemma_same_pieces(&before);
            opened.lemma_disjoint_same(&before);
            assert(opened.castle_ok()) by {
                assert forall|t: int, side: int|
                    0 <= t < 2 && 0 <= side < 2 && #[trigger] opened.castle_rights[t][side]
                    implies opened.piece_on(t, PIECE_KING as int, king_home(t))
                    && opened.piece_on(t, PIECE_ROOK as int, rook_home(t, side)) by {
                    assert(before.castle_rights[t][side]);
                }
            }
        }
        self.close_move(tables);
        proof {
            bv_xor_move(
                before.hash,
                pieces_keys(keys, before.pieces, 12),
                before.hash,
                pieces_keys(keys, before.pieces, 12),
                rights_key,
                en_passant_key,
                turn_key,
                spec_hash_castle_rights(keys, self.castle_rights),
                spec_hash_en_passant(keys, self.en_passant_mask),
                keys.turn,
            );
            assert(self.castle_ok()) by {
                assert forall|t: int, side: int|
                    0 <= t < 2 && 0 <= side < 2 && #[trigger] self.castle_rights[t][side]
                    implies self.piece_on(t, PIECE_KING as int, king_home(t)) && self.piece_on(
                    t,
                    PIECE_ROOK as int,
                    rook_home(t, side),
                ) by {
                    assert(before.castle_rights[t][side]);
                }
            }
        }
    }

    /// Whether pieces, rights and en-passant square are in order does not
    /// depend on the derived fields.
    pub proof fn lemma_wf_core_same(&self, other: &Board)
        requires
            self.pieces == other.pieces,
            self.turn_idx == other.turn_idx,
            self.castle_rights == other.castle_rights,
            self.en_passant_mask == other.en_passant_mask,
            other.wf_core(),
        ensures
            self.wf_core(),
    {
        self.lemma_disjoint_same(other);
        self.lemma_same_pieces(other);
        assert forall|t: int, side: int|
            0 <= t < 2 && 0 <= side < 2 && #[trigger] self.castle_rights[t][side]
            implies self.piece_on(t, PIECE_KING as int, king_home(t)) && self.piece_on(
            t,
            PIECE_ROOK as int,
            rook_home(t, side),
        ) by {
            assert(other.castle_rights[t][side]);
        }
    }

    /// With the turn not yet passed on, the pieces are as much in order as
    /// after it.
    proof fn lemma_wf_core_turn(&self, flipped: &Board)
        requires
            self.pieces == flipped.pieces,
            self.turn_idx < 2,
            flipped.wf_core(),
        ensures
            self.wf_pieces(),
    {
        self.lemma_disjoint_same(flipped);
    }

    /// Whether two pieces share a square follows from the pieces alone.
    pub proof fn lemma_disjoint_same(&self, other: &Board)
        requires
            self.pieces == other.pieces,
            other.pieces_disjoint(),
        ensures
            self.pieces_disjoint(),
    {
        reveal(Board::pieces_disjoint);
        assert forall|t1: int, p1: int, t2: int, p2: int, sq: int|
            #![trigger self.piece_on(t1, p1, sq), self.piece_on(t2, p2, sq)]
            0 <= t1 < 2 && 0 <= p1 < 6 && 0 <= t2 < 2 && 0 <= p2 < 6 && (t1 != t2 || p1 != p2)
            implies !(self.piece_on(t1, p1, sq) && self.piece_on(t2, p2, sq)) by {
            assert(other.piece_on(t1, p1, sq) == self.piece_on(t1, p1, sq));
            assert(other.piece_on(t2, p2, sq) == self.piece_on(t2, p2, sq));
        }
    }
}

/// Single-square masks are ordered as their squares are.
pub proof fn lemma_mask_order(a: int, b: int)
    requires
        0 <= a < 64,
        0 <= b < 64,
    ensures
        (sq_mask(a) < sq_mask(b)) == (a < b),
        (sq_mask(a) > sq_mask(b)) == (a > b),
{
    bv_mask_order(a as u64, b as u64);
    bv_mask_order(b as u64, a as u64);
}

/// A move from `from` to `to` touches the square `h` when it leaves or reaches it.
proof fn lemma_touches(from: BitMask, to: BitMask, h: int)
    requires
        is_square(from),
        is_square(to),
        0 <= h < 64,
    ensures
        ((to | from) & sq_mask(h) != 0) == (lowest_sq(from) == h || lowest_sq(to) == h),
{
    broadcast use group_has_sq;

    lemma_is_square(from);
    lemma_is_square(to);
    lemma_has_test(to | from, h);
}

/// The en-passant square after the move `mv` of side `m`: the square that a
/// double step passes over, and none after any other move.
fn passed_square(mv: &Move, m: usize) -> (mask: BitMask)
    requires
        m < 2,
        is_square(mv.to),
        mv.doubles() ==> is_sq(mv.to_sq() - 8 * pawn_dy(m as int)),
    ensures
        mask == (if mv.doubles() {
            sq_mask(mv.to_sq() - 8 * pawn_dy(m as int))
        } else {
            0
        }),
{
    if mv.has_flag(Move::FLAG_DOUBLE_PAWN_MOVE) {
        let mask = bm_shift(
            mv.to,
            0,
            if m == 0 {
                -1
            } else {
                1
            },
        );
        proof {
            broadcast use group_has_sq;

            lemma_is_square(mv.to);
            let e = mv.to_sq() - 8 * pawn_dy(m as int);
            assert forall|k: int| 0 <= k < 64 implies has_sq(mask, k) == (k == e) by {}
            lemma_only_square(mask, e);
        }
        mask
    } else {
        0
    }
}

proof fn bv_xor_move(
    h0: u64,
    p0: u64,
    h1: u64,
    p1: u64,
    c0: u64,
    e0: u64,
    t0: u64,
    c1: u64,
    e1: u64,
    kt: u64,
)
    by (bit_vector)
    requires
        h0 == ((p0 ^ c0) ^ e0) ^ t0,
        h1 ^ p1 == h0 ^ p0,
    ensures
        ((((h1 ^ c0) ^ e0) ^ c1) ^ e1) ^ kt == ((p1 ^ c1) ^ e1) ^ (t0 ^ kt),
        kt ^ kt == 0,
        0 ^ kt == kt,
        t0 ^ 0 == t0,
{
}

impl Board {
    /// `after` is what `do_move` makes of this position and the move `mv`.
    pub open spec fn is_do_move(&self, keys: &ZobristKeys, mv: &Move, after: &Board) -> bool {
        &&& self.moved_to(mv, after)
        &&& after.inv(keys)
        &&& after.attacks[after.turn_idx as int] == self.attacks[after.turn_idx as int]
        &&& after.pinned[self.turn_idx as int] == self.pinned[self.turn_idx as int]
    }

    /// The position after the move `mv`.
    pub open spec fn spec_do_move(&self, keys: &ZobristKeys, mv: &Move) -> Board {
        choose|after: Board| self.is_do_move(keys, mv, &after)
    }

    /// Two positions in order that agree in pieces, side to move, rights and
    /// en-passant square agree in occupancy, in hash, and in the attacks, pins
    /// and checks that move generation reads: applying a move and computing
    /// these fields from scratch gives what keeping them up to date gives.
    pub proof fn lemma_derived_unique(&self, keys: &ZobristKeys, other: &Board)
        requires
            self.turn_idx == other.turn_idx,
            self.pieces == other.pieces,
            self.castle_rights == other.castle_rights,
            self.en_passant_mask == other.en_passant_mask,
            self.inv(keys),
            other.occupancy_ok(),
            other.hash == other.spec_hash(keys),
            other.fresh(),
        ensures
            self.occupancy == other.occupancy,
            self.hash == other.hash,
            self.attacks[1 - self.turn_idx] == other.attacks[1 - self.turn_idx],
            self.pinned[self.turn_idx as int] == other.pinned[self.turn_idx as int],
            self.checkers == other.checkers,
    {
        let m = self.turn_idx as int;
        let o = 1 - m;
        let sa = self.attacks[o];
        let oa = other.attacks[o];
        self.lemma_same_pieces(other);
        assert(self.occupancy =~= other.occupancy);
        assert forall|b: int| 0 <= b < 64 implies has_sq(sa, b) == has_sq(oa, b) by {
            assert(has_sq(self.attacks[o], b) == self.attacked_by(o, b));
            assert(has_sq(other.attacks[o], b) == other.attacked_by(o, b));
        }
        lemma_ext(sa, oa);
        assert forall|c: int| 0 <= c < 64 implies has_sq(self.pinned[m], c) == has_sq(
            other.pinned[m],
            c,
        ) by {
            assert(has_sq(self.pinned[m], c) == self.is_pinned(m, c));
            assert(has_sq(other.pinned[m], c) == other.is_pinned(m, c));
        }
        lemma_ext(self.pinned[m], other.pinned[m]);
        assert forall|a: int| 0 <= a < 64 implies has_sq(self.checkers, a) == has_sq(
            other.checkers,
            a,
        ) by {
            assert(has_sq(self.checkers, a) == self.gives_check(o, a));
            assert(has_sq(other.checkers, a) == other.gives_check(o, a));
        }
        lemma_ext(self.checkers, other.checkers);
    }

    /// There is one position after a move.
    pub proof fn lemma_do_move_unique(&self, keys: &ZobristKeys, mv: &Move, b1: &Board, b2: &Board)
        requires
            self.is_do_move(keys, mv, b1),
            self.is_do_move(keys, mv, b2),
        ensures
            *b1 == *b2,
    {
        let m = b1.turn_idx as int;
        assert forall|t: int, p: int| 0 <= t < 2 && 0 <= p < 6 implies b1.pieces[t][p]
            == b2.pieces[t][p] by {
            assert forall|sq: int| 0 <= sq < 64 implies has_sq(b1.pieces[t][p], sq) == has_sq(
                b2.pieces[t][p],
                sq,
            ) by {
                assert(b1.piece_on(t, p, sq) == self.moved_has(mv, t, p, sq));
                assert(b2.piece_on(t, p, sq) == self.moved_has(mv, t, p, sq));
            }
            lemma_ext(b1.pieces[t][p], b2.pieces[t][p]);
        }
        assert(b1.pieces[0] =~= b2.pieces[0]);
        assert(b1.pieces[1] =~= b2.pieces[1]);
        assert(b1.pieces =~= b2.pieces);
        assert forall|t: int, side: int| 0 <= t < 2 && 0 <= side < 2 implies b1.castle_rights[t][side]
            == b2.castle_rights[t][side] by {
            assert(b1.castle_rights[t][side] == self.moved_right(mv, t, side));
            assert(b2.castle_rights[t][side] == self.moved_right(mv, t, side));
        }
        assert(b1.castle_rights[0] =~= b2.castle_rights[0]);
        assert(b1.castle_rights[1] =~= b2.castle_rights[1]);
        assert(b1.castle_rights =~= b2.castle_rights);
        b1.lemma_derived_unique(keys, b2);
        assert(b1.attacks =~= b2.attacks);
        assert(b1.pinned =~= b2.pinned);
    }
}


} // verus!
