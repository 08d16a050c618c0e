//! What holds of the moves that move generation gives.

use vstd::prelude::*;
use crate::bitmask::{
    has_sq, is_square, lemma_is_square, lemma_square, lemma_has_and, lemma_has_not,
};
use crate::geometry::{
    is_sq, between, on_ray, step_of, queen_line, bishop_line, clear_between, lemma_between_sym,
    lemma_ray_cases, lemma_corner_not_between, lemma_neighbours_none_between, lemma_knight_no_line,
    lemma_between_inner, lemma_neighbour_on_line, lemma_line_coords, lemma_walk_coords,
};
use crate::board::{
    Board, Move, attacks_sq, pawn_attacks, pawn_dy, rook_home, PIECE_PAWN, PIECE_KNIGHT,
    PIECE_BISHOP, PIECE_ROOK, PIECE_QUEEN, PIECE_KING,
};
use crate::lookup_gen::{piece_attacks, base_attacks, is_slider, walk_reaches, open_between};
use crate::move_gen::emit::lemma_flag_bits;

verus! {

impl Board {
    /// Between the bishop or queen of the side not to move on `a` and the
    /// king of the side to move, on a diagonal, stands the pawn that can be
    /// taken in passing and nothing else.
    pub open spec fn shielded_from(&self, a: int) -> bool {
        let m = self.turn_idx as int;
        let k = self.king_sq(m);
        let v = self.en_passant_sq() - 8 * pawn_dy(m);
        &&& self.piece_on(1 - m, PIECE_BISHOP as int, a) || self.piece_on(
            1 - m,
            PIECE_QUEEN as int,
            a,
        )
        &&& bishop_line(a, k)
        &&& between(a, k, v)
        &&& forall|c: int|
            is_sq(c) && #[trigger] between(a, k, c) && c != v ==> !has_sq(self.occ_all(), c)
    }

    /// The pawn that can be taken in passing is all that shields the king of
    /// the side to move from a bishop or queen on a diagonal. No game comes
    /// to such a position: before the pawn's double step the king would have
    /// stood in check with the other side to move.
    pub open spec fn victim_shields(&self) -> bool {
        exists|a: int| is_sq(a) && #[trigger] self.shielded_from(a)
    }

    /// What the position after a generated move holds.
    proof fn lemma_after_facts(&self, mv: &Move, after: &Board)
        requires
            self.ready(),
            self.generates(mv),
            self.moved_to(mv, after),
        ensures
            self.move_ok(mv),
            after.wf_core(),
            after.king_sq(self.turn_idx as int) == (if mv.from_piece_idx == PIECE_KING {
                mv.to_sq()
            } else {
                self.king_sq(self.turn_idx as int)
            }),
            is_sq(after.king_sq(self.turn_idx as int)),
            is_sq(self.king_sq(self.turn_idx as int)),
            is_sq(mv.from_sq()),
            is_sq(mv.to_sq()),
            self.piece_on(self.turn_idx as int, PIECE_KING as int, self.king_sq(self.turn_idx as int)),
            mv.takes_en_passant() == (mv.from_piece_idx == PIECE_PAWN && self.generates_plain(mv)
                && has_sq(self.en_passant_mask, mv.to_sq())),
            mv.castles() == (self.generates_castle(mv) && !self.generates_plain(mv)),
            self.generates_castle(mv) ==> mv.from_piece_idx == PIECE_KING,
    {
        let m = self.turn_idx as int;
        let k = self.king_sq(m);
        self.lemma_generated_ok(mv);
        self.lemma_moved_wf(mv, after);
        lemma_flag_bits();
        lemma_is_square(mv.from);
        lemma_is_square(mv.to);
        lemma_is_square(self.pieces[m][PIECE_KING as int]);
        lemma_is_square(after.pieces[m][PIECE_KING as int]);
        let new_k = if mv.from_piece_idx == PIECE_KING {
            mv.to_sq()
        } else {
            k
        };
        self.lemma_only_holder(m, mv.from_piece_idx as int, mv.from_sq());
        assert(after.piece_on(m, PIECE_KING as int, new_k) == self.moved_has(
            mv,
            m,
            PIECE_KING as int,
            new_k,
        ));
        if self.en_passant_mask != 0 {
            lemma_is_square(self.en_passant_mask);
        } else {
            crate::bitmask::lemma_has_zero(mv.to_sq());
        }
    }

    /// A square that holds a piece other than the king of the side to move,
    /// and that the move neither leaves nor clears, holds a piece after it.
    pub proof fn lemma_stays(&self, mv: &Move, after: &Board, c: int)
        requires
            self.ready(),
            self.move_ok(mv),
            self.moved_to(mv, after),
            is_sq(c),
            has_sq(self.occ_all(), c) || c == mv.to_sq(),
            c != mv.from_sq(),
            !(mv.castles() && c == rook_home(self.turn_idx as int, mv.castle_side())),
            !(mv.takes_en_passant() && c == self.en_passant_victim(mv)),
        ensures
            has_sq(after.occ_all(), c),
    {
        self.lemma_moved_occ(mv, after, c);
    }

    /// What side `o` attacks with after the move: the pieces in the way are
    /// all pieces but the king of the side that moved.
    pub proof fn lemma_way_after(&self, after: &Board, c: int)
        requires
            self.turn_idx < 2,
            is_square(after.pieces[self.turn_idx as int][PIECE_KING as int]),
            is_sq(c),
        ensures
            has_sq(after.occ_for_attack(1 - self.turn_idx), c) == (has_sq(after.occ_all(), c) && c
                != after.king_sq(self.turn_idx as int)),
    {
        let m = self.turn_idx as int;
        let king = after.pieces[m][PIECE_KING as int];
        lemma_is_square(king);
        lemma_has_and(after.occ_all(), !king, c);
        lemma_has_not(king, c);
    }

    /// After a generated move of the king, no piece of the other side
    /// attacks the square that it went to.
    proof fn lemma_king_safe(&self, mv: &Move, after: &Board, p: int, a: int)
        requires
            self.ready(),
            self.generates(mv),
            self.moved_to(mv, after),
            mv.from_piece_idx == PIECE_KING,
        ensures
            !after.attack_from(1 - self.turn_idx, p, a, mv.to_sq()),
    {
        let m = self.turn_idx as int;
        let o = 1 - m;
        let f = mv.from_sq();
        let to = mv.to_sq();
        if after.attack_from(o, p, a, to) {
            self.lemma_after_facts(mv, after);
            lemma_flag_bits();
            assert(after.piece_on(o, p, a) == self.moved_has(mv, o, p, a));
            assert(self.piece_on(o, p, a));
            assert(f == self.king_sq(m)) by {
                lemma_is_square(self.pieces[m][PIECE_KING as int]);
                assert(self.piece_on(m, PIECE_KING as int, f));
            }
            // The piece attacked the square before the move, with the king off the board.
            let way = self.occ_for_attack(o);
            let way_after = after.occ_for_attack(o);
            if is_slider(p) {
                assert(clear_between(way, a, to)) by {
                    assert forall|c: int| is_sq(c) && #[trigger] between(a, to, c) implies !has_sq(
                        way,
                        c,
                    ) by {
                        let king = self.pieces[m][PIECE_KING as int];
                        lemma_has_and(self.occ_all(), !king, c);
                        lemma_has_not(king, c);
                        lemma_is_square(king);
                        if has_sq(way, c) {
                            lemma_corner_not_between(a, to, c);
                            self.lemma_stays(mv, after, c);
                            self.lemma_way_after(after, c);
                            lemma_neighbours_none_between(a, a, c);
                            assert(c != to) by {
                                if queen_line(a, to) {
                                    lemma_line_coords(a, to);
                                }
                            }
                            assert(has_sq(way_after, c));
                        }
                    }
                }
            }
            assert(attacks_sq(o, p, a, way, to));
            assert(self.attack_from(o, p, a, to));
            assert(self.attacked_by(o, to));
            assert(has_sq(self.attacks[o], to));
            if self.generates_plain(mv) {
                assert(self.reaches(PIECE_KING as int, f, to));
            } else {
                assert(self.castle_rights[m][mv.castle_side()]) by {
                    lemma_square(f - 2);
                    lemma_square(f + 2);
                }
                lemma_square(f - 2);
                lemma_square(f + 2);
            }
        }
    }

    /// No piece jumps: a square between the square that a piece leaves and
    /// the square that it may go to holds no piece.
    proof fn lemma_no_jump(&self, fp: int, f: int, to: int, c: int)
        requires
            self.turn_idx < 2,
            is_sq(f),
            is_sq(to),
            is_sq(c),
            0 <= fp < 6,
            if fp == PIECE_PAWN {
                self.pawn_reaches(f, to)
            } else {
                piece_attacks(fp, f, self.occ_all(), to)
            },
            has_sq(self.occ_all(), c),
        ensures
            !between(f, to, c),
    {
        let dy = pawn_dy(self.turn_idx as int);
        if between(f, to, c) {
            lemma_line_coords(f, to);
            lemma_line_coords(f, c);
            if fp == PIECE_PAWN {
                assert(c == f + 8 * dy);
            } else if fp == PIECE_KNIGHT {
                lemma_knight_no_line(f, to);
            } else if fp == PIECE_KING {
                lemma_neighbours_none_between(f, to, c);
            }
        }
    }

    /// A piece that gave check before a generated move of a piece other than
    /// the king was taken by the move, or the move put a piece between it
    /// and the king.
    proof fn lemma_check_met(&self, mv: &Move, a: int)
        requires
            self.ready(),
            self.generates_plain(mv),
            mv.from_piece_idx != PIECE_KING,
            is_sq(a),
            self.checker(a),
        ensures
            mv.to_sq() == a || between(self.king_sq(self.turn_idx as int), a, mv.to_sq()) || (
            mv.from_piece_idx == PIECE_PAWN && has_sq(self.en_passant_mask, mv.to_sq()) && a
                == self.en_passant_sq() - 8 * pawn_dy(self.turn_idx as int)),
    {
        let m = self.turn_idx as int;
        let k = self.king_sq(m);
        let to = mv.to_sq();
        assert(self.reaches(mv.from_piece_idx as int, mv.from_sq(), to));
        lemma_is_square(self.pieces[m][PIECE_KING as int]);
        self.lemma_occ(m, k);
        assert(self.piece_on(m, PIECE_KING as int, k));
        assert(to != k);
    }

    /// After a generated move of a piece other than the king, a knight, pawn
    /// or king of the other side does not attack the king.
    proof fn lemma_guard_step(&self, mv: &Move, after: &Board, p: int, a: int)
        requires
            self.ready(),
            self.generates(mv),
            self.moved_to(mv, after),
            mv.from_piece_idx != PIECE_KING,
            !is_slider(p),
        ensures
            !after.attack_from(1 - self.turn_idx, p, a, self.king_sq(self.turn_idx as int)),
    {
        let m = self.turn_idx as int;
        let o = 1 - m;
        let k = self.king_sq(m);
        let to = mv.to_sq();
        if after.attack_from(o, p, a, k) {
            self.lemma_after_facts(mv, after);
            assert(after.piece_on(o, p, a) == self.moved_has(mv, o, p, a));
            assert(self.attack_from(o, p, a, k));
            assert(self.checker(a));
            self.lemma_check_met(mv, a);
            if between(k, a, to) {
                if p == PIECE_KNIGHT {
                    lemma_knight_no_line(a, k);
                    lemma_between_sym(k, a, to);
                } else {
                    lemma_neighbours_none_between(a, k, to);
                    lemma_between_sym(k, a, to);
                }
            }
            if to != a {
                // The piece taken in passing is a pawn.
                lemma_is_square(self.en_passant_mask);
                self.lemma_only_holder(o, PIECE_PAWN as int, a);
            }
        }
    }

    /// After a generated move of a piece other than the king, a bishop, rook
    /// or queen of the other side does not attack the king.
    proof fn lemma_guard_line(&self, mv: &Move, after: &Board, p: int, a: int)
        requires
            self.ready(),
            self.generates(mv),
            self.moved_to(mv, after),
            mv.from_piece_idx != PIECE_KING,
            is_slider(p),
            !(mv.takes_en_passant() && self.victim_shields()),
        ensures
            !after.attack_from(1 - self.turn_idx, p, a, self.king_sq(self.turn_idx as int)),
    {
        let m = self.turn_idx as int;
        let o = 1 - m;
        let k = self.king_sq(m);
        let f = mv.from_sq();
        let to = mv.to_sq();
        let v = self.en_passant_sq() - 8 * pawn_dy(m);
        let passing = mv.takes_en_passant();
        if after.attack_from(o, p, a, k) {
            self.lemma_after_facts(mv, after);
            assert(after.piece_on(o, p, a) == self.moved_has(mv, o, p, a));
            assert(self.piece_on(o, p, a) && a != to);
            if passing {
                lemma_is_square(self.en_passant_mask);
                assert(to == self.en_passant_sq());
            }
            assert(passing ==> v == self.en_passant_victim(mv));
            assert(base_attacks(p, a, k));
            assert(queen_line(a, k));
            // What stands between the piece and the king left with the move.
            assert forall|c: int| is_sq(c) && #[trigger] between(a, k, c) implies c != to && (
            !has_sq(self.occ_all(), c) || c == f || (passing && c == v)) by {
                if c == to || !(!has_sq(self.occ_all(), c) || c == f || (passing && c == v)) {
                    self.lemma_stays(mv, after, c);
                    self.lemma_way_after(after, c);
                    lemma_line_coords(a, k);
                    lemma_line_coords(a, c);
                    assert(has_sq(after.occ_for_attack(o), c));
                }
            }
            self.lemma_only_holder(m, mv.from_piece_idx as int, f);
            if between(a, k, f) {
                if passing && between(a, k, v) {
                    self.lemma_rank_opened(mv, p, a);
                } else {
                    // The piece that moved was pinned.
                    assert(self.pins(m, p, a, f));
                    assert(self.is_pinned(m, f));
                    assert(self.reaches(mv.from_piece_idx as int, f, to));
                    self.lemma_occ(m, k);
                    assert(on_ray(k, f, to));
                    lemma_ray_cases(a, k, f, to);
                    self.lemma_only_holder(o, p, a);
                    self.lemma_no_jump(mv.from_piece_idx as int, f, to, a);
                }
            } else if passing && between(a, k, v) {
                self.lemma_victim_line(mv, p, a);
            } else {
                // The piece gave check before the move.
                assert(clear_between(self.occ_for_attack(o), a, k)) by {
                    assert forall|c: int| is_sq(c) && #[trigger] between(a, k, c) implies !has_sq(
                        self.occ_for_attack(o),
                        c,
                    ) by {
                        lemma_has_and(self.occ_all(), !self.pieces[m][PIECE_KING as int], c);
                    }
                }
                assert(self.attack_from(o, p, a, k));
                assert(self.checker(a));
                self.lemma_check_met(mv, a);
                if between(k, a, to) {
                    lemma_between_sym(k, a, to);
                }
                if to != a && !between(k, a, to) {
                    lemma_is_square(self.en_passant_mask);
                    self.lemma_only_holder(o, PIECE_PAWN as int, a);
                }
            }
        }
    }

    /// A pawn comes to the en-passant square only by capturing.
    pub proof fn lemma_passing_is_capture(&self, f: int)
        requires
            self.ready(),
            self.en_passant_mask != 0,
            is_sq(f),
            self.piece_on(self.turn_idx as int, PIECE_PAWN as int, f),
            self.pawn_reaches(f, self.en_passant_sq()),
        ensures
            pawn_attacks(self.turn_idx as int, f, self.en_passant_sq()),
    {
        let m = self.turn_idx as int;
        let e = self.en_passant_sq();
        let v = e - 8 * pawn_dy(m);
        lemma_is_square(self.en_passant_mask);
        self.lemma_only_holder(1 - m, PIECE_PAWN as int, v);
        self.lemma_occ(0, e);
        self.lemma_occ(1, e);
    }

    /// Where the pawn taken in passing stands between a slider and the king
    /// and the pawn that takes does not, the move does not open the line:
    /// on a file the pawn that takes lands on it, a rank holds both pawns,
    /// and a diagonal is left out of account.
    proof fn lemma_victim_line(&self, mv: &Move, p: int, a: int)
        requires
            self.ready(),
            self.generates_plain(mv),
            mv.from_piece_idx == PIECE_PAWN,
            has_sq(self.en_passant_mask, mv.to_sq()),
            is_slider(p),
            is_sq(a),
            self.piece_on(1 - self.turn_idx, p, a),
            a != mv.to_sq(),
            base_attacks(p, a, self.king_sq(self.turn_idx as int)),
            between(
                a,
                self.king_sq(self.turn_idx as int),
                self.en_passant_sq() - 8 * pawn_dy(self.turn_idx as int),
            ),
            forall|c: int|
                is_sq(c) && #[trigger] between(a, self.king_sq(self.turn_idx as int), c) ==> c
                    != mv.to_sq() && (!has_sq(self.occ_all(), c) || c == mv.from_sq() || c
                    == self.en_passant_sq() - 8 * pawn_dy(self.turn_idx as int)),
            !self.victim_shields(),
        ensures
            between(a, self.king_sq(self.turn_idx as int), mv.from_sq()),
    {
        let m = self.turn_idx as int;
        let o = 1 - m;
        let k = self.king_sq(m);
        let f = mv.from_sq();
        let to = mv.to_sq();
        let e = self.en_passant_sq();
        let v = e - 8 * pawn_dy(m);
        lemma_is_square(self.en_passant_mask);
        lemma_is_square(mv.from);
        lemma_is_square(mv.to);
        lemma_is_square(self.pieces[m][PIECE_KING as int]);
        assert(to == e);
        assert(self.reaches(PIECE_PAWN as int, f, to));
        assert(self.pawn_reaches(f, to));
        self.lemma_occ(0, to);
        self.lemma_occ(1, to);
        self.lemma_occ(m, k);
        assert(!has_sq(self.occ(o), to));
        self.lemma_passing_is_capture(f);
        assert(pawn_attacks(m, f, to));
        assert(self.piece_on(o, PIECE_PAWN as int, v));
        lemma_line_coords(a, k);
        lemma_line_coords(a, v);
        self.lemma_only_holder(m, PIECE_PAWN as int, f);
        self.lemma_only_holder(m, PIECE_KING as int, k);
        self.lemma_only_holder(o, p, a);
        if bishop_line(a, k) {
            if !between(a, k, f) {
                assert(self.shielded_from(a));
            }
        } else {
            let step = step_of(a, k);
            if step == 1 || step == -1 {
                lemma_neighbour_on_line(a, k, v, f);
            } else {
                lemma_neighbour_on_line(a, k, v, to);
            }
        }
    }

    /// Where both pawns of a capture in passing stand between a slider and
    /// the king with nothing else, the capture is not generated.
    proof fn lemma_rank_opened(&self, mv: &Move, p: int, a: int)
        requires
            self.ready(),
            self.generates_plain(mv),
            mv.from_piece_idx == PIECE_PAWN,
            has_sq(self.en_passant_mask, mv.to_sq()),
            is_slider(p),
            is_sq(a),
            self.piece_on(1 - self.turn_idx, p, a),
            base_attacks(p, a, self.king_sq(self.turn_idx as int)),
            between(a, self.king_sq(self.turn_idx as int), mv.from_sq()),
            between(
                a,
                self.king_sq(self.turn_idx as int),
                self.en_passant_sq() - 8 * pawn_dy(self.turn_idx as int),
            ),
            forall|c: int|
                is_sq(c) && #[trigger] between(a, self.king_sq(self.turn_idx as int), c) ==> (
                !has_sq(self.occ_all(), c) || c == mv.from_sq() || c == self.en_passant_sq() - 8
                    * pawn_dy(self.turn_idx as int)),
        ensures
            !self.pawn_reaches(mv.from_sq(), mv.to_sq()),
    {
        let m = self.turn_idx as int;
        let o = 1 - m;
        let k = self.king_sq(m);
        let f = mv.from_sq();
        let to = mv.to_sq();
        let e = self.en_passant_sq();
        let v = e - 8 * pawn_dy(m);
        let free = !self.occ_all();
        lemma_is_square(self.en_passant_mask);
        lemma_is_square(mv.from);
        lemma_is_square(mv.to);
        lemma_is_square(self.pieces[m][PIECE_KING as int]);
        assert(to == e);
        if self.pawn_reaches(f, to) {
            self.lemma_occ(0, to);
            self.lemma_occ(1, to);
            self.lemma_passing_is_capture(f);
            assert(pawn_attacks(m, f, e));
            lemma_line_coords(a, k);
            lemma_line_coords(a, v);
            lemma_line_coords(a, f);
            let step = step_of(a, k);
            assert(step == 1 || step == -1);
            assert(p == PIECE_ROOK || p == PIECE_QUEEN);
            let lo = if f < v {
                f
            } else {
                v
            };
            let hi = if f < v {
                v
            } else {
                f
            };
            // The squares beyond the two pawns, up to the slider and up to the
            // king, are empty.
            let low_end = if a < k {
                a
            } else {
                k
            };
            let high_end = if a < k {
                k
            } else {
                a
            };
            lemma_walk_coords(lo, -1, lo - low_end, low_end);
            lemma_walk_coords(hi, 1, high_end - hi, high_end);
            assert(open_between(free, lo, low_end)) by {
                assert forall|c: int| is_sq(c) && #[trigger] between(lo, low_end, c) implies has_sq(
                    free,
                    c,
                ) by {
                    lemma_between_inner(a, k, lo, low_end, c);
                    lemma_line_coords(lo, c);
                    lemma_has_not(self.occ_all(), c);
                }
            }
            assert(open_between(free, hi, high_end)) by {
                assert forall|c: int| is_sq(c) && #[trigger] between(hi, high_end, c) implies has_sq(
                    free,
                    c,
                ) by {
                    lemma_between_inner(a, k, hi, high_end, c);
                    lemma_line_coords(hi, c);
                    lemma_has_not(self.occ_all(), c);
                }
            }
            assert(walk_reaches(lo, -1, free, low_end));
            assert(walk_reaches(hi, 1, free, high_end));
            assert(self.rank_sees(lo, hi, k));
            assert(self.rank_sees(lo, hi, a));
            assert(self.rank_opened(lo, hi));
            assert(self.en_passant_pinned(f));
        }
    }

    /// A move that move generation gives does not leave the king of the side
    /// that makes it in check: after the move, no piece of the other side
    /// attacks that king. This holds of every position in order but those
    /// in which the pawn that can be taken in passing is all that shields
    /// the king from a bishop or queen on a diagonal, for the capture in
    /// passing.
    pub proof fn lemma_no_self_check(&self, mv: &Move, after: &Board)
        requires
            self.ready(),
            self.generates(mv),
            self.moved_to(mv, after),
            !(mv.takes_en_passant() && self.victim_shields()),
        ensures
            !after.attacked_by(1 - self.turn_idx, after.king_sq(self.turn_idx as int)),
    {
        let m = self.turn_idx as int;
        let o = 1 - m;
        self.lemma_after_facts(mv, after);
        let new_k = after.king_sq(m);
        assert forall|p: int, a: int| !#[trigger] after.attack_from(o, p, a, new_k) by {
            if 0 <= p < 6 && is_sq(a) {
                if mv.from_piece_idx == PIECE_KING {
                    self.lemma_king_safe(mv, after, p, a);
                } else if is_slider(p) {
                    self.lemma_guard_line(mv, after, p, a);
                } else {
                    self.lemma_guard_step(mv, after, p, a);
                }
            }
        }
    }
}

} // verus!
