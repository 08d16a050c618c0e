//! The moves that move generation gives are the legal moves.

use vstd::prelude::*;
use crate::bitmask::{
    has_sq, is_square, lowest_sq, file_of, rank_of, lemma_is_square, lemma_has_and, lemma_has_not,
};
use crate::geometry::{
    is_sq, dist, between, on_ray, queen_line, rook_line, clear_between, lemma_between_sym,
    lemma_same_ray, lemma_between_on_ray, lemma_step_apart, lemma_line_coords,
    lemma_walk_coords, lemma_between_inner, lemma_neighbours_none_between,
};
use crate::board::{
    Board, Move, attacks_sq, pawn_attacks, pawn_dy, PIECE_PAWN, PIECE_ROOK, PIECE_QUEEN,
    PIECE_KING,
};
use crate::lookup_gen::{piece_attacks, base_attacks, is_slider, walk_reaches, open_between};
use crate::move_gen::emit::lemma_flag_bits;

verus! {

impl Board {
    /// The pawn of the side to move on `f` moves to `t` as pawns move: one
    /// step ahead to an empty square, two from its first rank over empty
    /// squares, or aslant to a square that holds a piece of the other side
    /// or is the en-passant square.
    pub open spec fn pawn_moves(&self, f: int, t: int) -> bool {
        let m = self.turn_idx as int;
        let dy = pawn_dy(m);
        let occ = self.occ_all();
        let step = t == f + 8 * dy && !has_sq(occ, t);
        let double = rank_of(f) == Self::pawn_start_rank(m) && t == f + 16 * dy && !has_sq(
            occ,
            f + 8 * dy,
        ) && !has_sq(occ, t);
        let takes = pawn_attacks(m, f, t) && (has_sq(self.occ(1 - m), t) || has_sq(
            self.en_passant_mask,
            t,
        ));
        is_sq(t) && (step || double || takes)
    }

    /// The piece of the side to move, of kind `p` on `f`, moves to `t` as its
    /// kind moves, to a square that holds no piece of its side and not the
    /// other king. Whether its own king stands in check then is left open.
    pub open spec fn moves_to(&self, p: int, f: int, t: int) -> bool {
        let m = self.turn_idx as int;
        &&& is_sq(t)
        &&& if p == PIECE_PAWN {
            self.pawn_moves(f, t)
        } else {
            piece_attacks(p, f, self.occ_all(), t)
        }
        &&& !has_sq(self.occ(m), t)
        &&& !self.piece_on(1 - m, PIECE_KING as int, t)
    }

    /// The move moves a piece of the side to move as its kind moves, and its
    /// kind after the move and its flags are those of such a move.
    pub open spec fn pseudo_plain(&self, mv: &Move) -> bool {
        let m = self.turn_idx as int;
        &&& is_square(mv.from)
        &&& is_square(mv.to)
        &&& mv.from_piece_idx < 6
        &&& self.piece_on(m, mv.from_piece_idx as int, mv.from_sq())
        &&& self.moves_to(mv.from_piece_idx as int, mv.from_sq(), mv.to_sq())
        &&& self.shape_ok(mv)
    }

    /// The move is legal, castling left aside: a piece moves as its kind
    /// moves, and in the position `after` the move the other side does not
    /// attack the king of the side that moved.
    pub open spec fn legal_plain(&self, mv: &Move, after: &Board) -> bool {
        let m = self.turn_idx as int;
        &&& self.pseudo_plain(mv)
        &&& self.moved_to(mv, after)
        &&& !after.attacked_by(1 - m, after.king_sq(m))
    }

    /// A move of a piece as its kind moves can be made.
    pub proof fn lemma_pseudo_ok(&self, mv: &Move)
        requires
            self.ready(),
            self.pseudo_plain(mv),
        ensures
            self.move_ok(mv),
            !mv.castles(),
            mv.takes_en_passant() == (mv.from_piece_idx == PIECE_PAWN && has_sq(
                self.en_passant_mask,
                mv.to_sq(),
            )),
            mv.takes_en_passant() ==> mv.to_sq() == self.en_passant_sq(),
    {
        let m = self.turn_idx as int;
        let f = mv.from_sq();
        let t = mv.to_sq();
        lemma_flag_bits();
        lemma_is_square(self.pieces[m][PIECE_KING as int]);
        lemma_is_square(mv.from);
        lemma_is_square(mv.to);
        self.lemma_occ(0, t);
        self.lemma_occ(1, t);
        if self.en_passant_mask != 0 {
            if self.en_passant_mask != 0 {
            lemma_is_square(self.en_passant_mask);
        }
        } else {
            crate::bitmask::lemma_has_zero(t);
        }
        if mv.from_piece_idx == PIECE_PAWN {
            self.lemma_occ(0, f + 8 * pawn_dy(m));
            self.lemma_occ(1, f + 8 * pawn_dy(m));
        }
    }

    /// Every move that move generation gives moves a piece as its kind moves.
    pub proof fn lemma_generated_is_pseudo(&self, mv: &Move)
        requires
            self.generates_plain(mv),
        ensures
            self.pseudo_plain(mv),
    {
    }

    /// A piece that attacks a square does not stand on it.
    proof fn lemma_attack_apart(t: int, p: int, a: int, occ: u64, b: int)
        requires
            is_sq(a),
            is_sq(b),
            0 <= p < 6,
            attacks_sq(t, p, a, occ, b),
        ensures
            a != b,
    {
    }

    /// An attack on the king's square outlasts the move: the piece of the
    /// other side of kind `p` on `a` is not taken, and where it is a slider,
    /// every square between it and the king's square is empty, or is left
    /// empty by the move.
    proof fn lemma_attack_lasts(&self, mv: &Move, after: &Board, p: int, a: int)
        requires
            self.ready(),
            self.pseudo_plain(mv),
            self.moved_to(mv, after),
            0 <= p < 6,
            is_sq(a),
            self.piece_on(1 - self.turn_idx, p, a),
            a != mv.to_sq(),
            !(mv.takes_en_passant() && a == self.en_passant_sq() - 8 * pawn_dy(
                self.turn_idx as int,
            )),
            is_sq(after.king_sq(self.turn_idx as int)),
            is_square(after.pieces[self.turn_idx as int][PIECE_KING as int]),
            if is_slider(p) {
                &&& base_attacks(p, a, after.king_sq(self.turn_idx as int))
                &&& forall|c: int|
                    is_sq(c) && #[trigger] between(a, after.king_sq(self.turn_idx as int), c) ==> c
                        != mv.to_sq() && (!has_sq(self.occ_all(), c) || c == mv.from_sq() || (
                    mv.takes_en_passant() && c == self.en_passant_sq() - 8 * pawn_dy(
                        self.turn_idx as int,
                    )))
            } else {
                attacks_sq(1 - self.turn_idx, p, a, 0, after.king_sq(self.turn_idx as int))
            },
        ensures
            after.attack_from(1 - self.turn_idx, p, a, after.king_sq(self.turn_idx as int)),
            after.attacked_by(1 - self.turn_idx, after.king_sq(self.turn_idx as int)),
    {
        let m = self.turn_idx as int;
        let o = 1 - m;
        let target = after.king_sq(m);
        self.lemma_pseudo_ok(mv);
        assert(after.piece_on(o, p, a) == self.moved_has(mv, o, p, a));
        if mv.takes_en_passant() {
            assert(self.en_passant_victim(mv) == self.en_passant_sq() - 8 * pawn_dy(m));
        }
        let way = after.occ_for_attack(o);
        if is_slider(p) {
            assert(clear_between(way, a, target)) by {
                assert forall|c: int| is_sq(c) && #[trigger] between(a, target, c) implies !has_sq(
                    way,
                    c,
                ) by {
                    self.lemma_way_after(after, c);
                    self.lemma_moved_occ(mv, after, c);
                }
            }
        }
        assert(after.attack_from(o, p, a, target));
    }

    /// What the position after a move of a piece as its kind moves holds.
    proof fn lemma_after_pseudo(&self, mv: &Move, after: &Board)
        requires
            self.ready(),
            self.pseudo_plain(mv),
            self.moved_to(mv, after),
        ensures
            after.king_sq(self.turn_idx as int) == (if mv.from_piece_idx == PIECE_KING {
                mv.to_sq()
            } else {
                self.king_sq(self.turn_idx as int)
            }),
            is_square(after.pieces[self.turn_idx as int][PIECE_KING as int]),
            is_sq(after.king_sq(self.turn_idx as int)),
            is_sq(self.king_sq(self.turn_idx as int)),
            is_sq(mv.from_sq()),
            is_sq(mv.to_sq()),
            self.piece_on(self.turn_idx as int, PIECE_KING as int, self.king_sq(self.turn_idx as int)),
            mv.from_piece_idx == PIECE_KING ==> mv.from_sq() == self.king_sq(self.turn_idx as int),
    {
        let m = self.turn_idx as int;
        let k = self.king_sq(m);
        self.lemma_pseudo_ok(mv);
        self.lemma_moved_wf(mv, after);
        lemma_is_square(mv.from);
        lemma_is_square(mv.to);
        lemma_is_square(self.pieces[m][PIECE_KING as int]);
        lemma_is_square(after.pieces[m][PIECE_KING as int]);
        let new_k = if mv.from_piece_idx == PIECE_KING {
            mv.to_sq()
        } else {
            k
        };
        self.lemma_only_holder(m, mv.from_piece_idx as int, mv.from_sq());
        assert(after.piece_on(m, PIECE_KING as int, new_k) == self.moved_has(
            mv,
            m,
            PIECE_KING as int,
            new_k,
        ));
    }

    /// A king that goes to a square that the other side attacks stands in
    /// check there.
    proof fn lemma_king_exposed(&self, mv: &Move, after: &Board)
        requires
            self.ready(),
            self.pseudo_plain(mv),
            self.moved_to(mv, after),
            mv.from_piece_idx == PIECE_KING,
            self.attacked_by(1 - self.turn_idx, mv.to_sq()),
        ensures
            after.attacked_by(1 - self.turn_idx, after.king_sq(self.turn_idx as int)),
    {
        let m = self.turn_idx as int;
        let o = 1 - m;
        let to = mv.to_sq();
        let f = mv.from_sq();
        self.lemma_after_pseudo(mv, after);
        self.lemma_pseudo_ok(mv);
        let (p, a) = choose|p: int, a: int| #[trigger] self.attack_from(o, p, a, to);
        let way = self.occ_for_attack(o);
        Self::lemma_attack_apart(o, p, a, way, to);
        self.lemma_only_holder(o, p, a);
        if self.en_passant_mask != 0 {
            lemma_is_square(self.en_passant_mask);
        }
        if is_slider(p) {
            assert forall|c: int| is_sq(c) && #[trigger] between(a, to, c) implies c != to && (
            !has_sq(self.occ_all(), c) || c == f) by {
                let king = self.pieces[m][PIECE_KING as int];
                lemma_has_and(self.occ_all(), !king, c);
                lemma_has_not(king, c);
                lemma_is_square(king);
                lemma_line_coords(a, to);
            }
        }
        self.lemma_attack_lasts(mv, after, p, a);
    }

    /// A piece that gives check and is neither taken nor shut off by the move
    /// of another piece than the king gives check after it.
    proof fn lemma_check_lasts(&self, mv: &Move, after: &Board, a: int)
        requires
            self.ready(),
            self.pseudo_plain(mv),
            self.moved_to(mv, after),
            mv.from_piece_idx != PIECE_KING,
            is_sq(a),
            self.checker(a),
            a != mv.to_sq(),
            !between(self.king_sq(self.turn_idx as int), a, mv.to_sq()),
            !(mv.takes_en_passant() && a == self.en_passant_sq() - 8 * pawn_dy(
                self.turn_idx as int,
            )),
        ensures
            after.attacked_by(1 - self.turn_idx, after.king_sq(self.turn_idx as int)),
    {
        let m = self.turn_idx as int;
        let o = 1 - m;
        let k = self.king_sq(m);
        let to = mv.to_sq();
        self.lemma_after_pseudo(mv, after);
        let p = choose|p: int| #[trigger] self.attack_from(o, p, a, k);
        if is_slider(p) {
            assert forall|c: int| is_sq(c) && #[trigger] between(a, k, c) implies c != to && (
            !has_sq(self.occ_all(), c)) by {
                let king = self.pieces[m][PIECE_KING as int];
                lemma_has_and(self.occ_all(), !king, c);
                lemma_has_not(king, c);
                lemma_is_square(king);
                lemma_between_sym(a, k, c);
                lemma_line_coords(a, k);
            }
        }
        self.lemma_attack_lasts(mv, after, p, a);
    }

    /// A pinned piece that leaves the line from its king through itself
    /// leaves the king in check.
    proof fn lemma_pin_exposed(&self, mv: &Move, after: &Board)
        requires
            self.ready(),
            self.pseudo_plain(mv),
            self.moved_to(mv, after),
            mv.from_piece_idx != PIECE_KING,
            self.is_pinned(self.turn_idx as int, mv.from_sq()),
            !on_ray(self.king_sq(self.turn_idx as int), mv.from_sq(), mv.to_sq()),
        ensures
            after.attacked_by(1 - self.turn_idx, after.king_sq(self.turn_idx as int)),
    {
        let m = self.turn_idx as int;
        let o = 1 - m;
        let k = self.king_sq(m);
        let f = mv.from_sq();
        let to = mv.to_sq();
        self.lemma_after_pseudo(mv, after);
        self.lemma_pseudo_ok(mv);
        let (p, a) = choose|p: int, a: int| #[trigger] self.pins(m, p, a, f);
        lemma_between_on_ray(a, k, f, a);
        self.lemma_only_holder(o, p, a);
        if self.en_passant_mask != 0 {
            lemma_is_square(self.en_passant_mask);
        }
        assert forall|c: int| is_sq(c) && #[trigger] between(a, k, c) implies c != to && (!has_sq(
            self.occ_all(),
            c,
        ) || c == f) by {
            lemma_between_on_ray(a, k, f, c);
        }
        self.lemma_attack_lasts(mv, after, p, a);
    }

    /// In double check a move of another piece than the king, captures in
    /// passing left aside, leaves the king in check.
    proof fn lemma_double_exposed(&self, mv: &Move, after: &Board)
        requires
            self.ready(),
            self.pseudo_plain(mv),
            self.moved_to(mv, after),
            mv.from_piece_idx != PIECE_KING,
            self.in_double_check(),
            !mv.takes_en_passant(),
        ensures
            after.attacked_by(1 - self.turn_idx, after.king_sq(self.turn_idx as int)),
    {
        let m = self.turn_idx as int;
        let o = 1 - m;
        let k = self.king_sq(m);
        let to = mv.to_sq();
        self.lemma_after_pseudo(mv, after);
        let (a1, a2) = choose|a1: int, a2: int|
            is_sq(a1) && is_sq(a2) && a1 != a2 && #[trigger] self.checker(a1)
                && #[trigger] self.checker(a2);
        if to != a1 && !between(k, a1, to) {
            self.lemma_check_lasts(mv, after, a1);
        } else if to != a2 && !between(k, a2, to) {
            self.lemma_check_lasts(mv, after, a2);
        } else {
            // One of the two would stand between the king and the other.
            self.lemma_checker_clear(a1, a2);
            self.lemma_checker_clear(a2, a1);
            if to != a1 && to != a2 {
                lemma_same_ray(k, a1, a2, to);
            }
        }
    }

    /// No piece of the other side stands between the king and a piece that
    /// gives check.
    proof fn lemma_checker_clear(&self, a: int, c: int)
        requires
            self.ready(),
            is_sq(a),
            is_sq(c),
            self.checker(a),
            self.checker(c),
        ensures
            !between(self.king_sq(self.turn_idx as int), a, c),
    {
        let m = self.turn_idx as int;
        let o = 1 - m;
        let k = self.king_sq(m);
        lemma_is_square(self.pieces[m][PIECE_KING as int]);
        let p = choose|p: int| #[trigger] self.attack_from(o, p, a, k);
        let pc = choose|pc: int| #[trigger] self.attack_from(o, pc, c, k);
        if between(k, a, c) {
            lemma_between_sym(k, a, c);
            if is_slider(p) {
                let king = self.pieces[m][PIECE_KING as int];
                lemma_has_and(self.occ_all(), !king, c);
                lemma_has_not(king, c);
                self.lemma_only_holder(o, pc, c);
                self.lemma_only_holder(m, PIECE_KING as int, k);
                assert(has_sq(self.occ_for_attack(o), c));
            } else {
                lemma_step_apart(a, k, c);
            }
        }
    }

    /// A capture in passing that takes both pawns off a rank on which only
    /// they stand between the king and a rook or queen leaves the king in
    /// check.
    proof fn lemma_rank_exposed(&self, mv: &Move, after: &Board)
        requires
            self.ready(),
            self.pseudo_plain(mv),
            self.moved_to(mv, after),
            mv.from_piece_idx == PIECE_PAWN,
            has_sq(self.en_passant_mask, mv.to_sq()),
            self.en_passant_pinned(mv.from_sq()),
        ensures
            after.attacked_by(1 - self.turn_idx, after.king_sq(self.turn_idx as int)),
    {
        let m = self.turn_idx as int;
        let o = 1 - m;
        let k = self.king_sq(m);
        let f = mv.from_sq();
        let to = mv.to_sq();
        let e = self.en_passant_sq();
        let v = e - 8 * pawn_dy(m);
        let free = !self.occ_all();
        self.lemma_after_pseudo(mv, after);
        self.lemma_pseudo_ok(mv);
        lemma_is_square(self.en_passant_mask);
        assert(to == e);
        assert(self.pawn_moves(f, to));
        self.lemma_occ(0, to);
        self.lemma_occ(1, to);
        self.lemma_only_holder(o, PIECE_PAWN as int, v);
        self.lemma_only_holder(m, PIECE_PAWN as int, f);
        self.lemma_only_holder(m, PIECE_KING as int, k);
        assert(pawn_attacks(m, f, e));
        let lo = if f < v {
            f
        } else {
            v
        };
        let hi = if f < v {
            v
        } else {
            f
        };
        assert(self.rank_opened(lo, hi));
        let s = choose|s: int|
            is_sq(s) && (self.piece_on(o, PIECE_ROOK as int, s) || self.piece_on(
                o,
                PIECE_QUEEN as int,
                s,
            )) && #[trigger] self.rank_sees(lo, hi, s);
        let p: int = if self.piece_on(o, PIECE_ROOK as int, s) {
            PIECE_ROOK as int
        } else {
            PIECE_QUEEN as int
        };
        self.lemma_only_holder(o, p, s);
        assert(self.rank_sees(lo, hi, k));
        assert(hi == lo + 1 && rank_of(lo) == rank_of(hi));
        // Both stand on the rank of the pawns, one on each side of them.
        let s_low = walk_reaches(lo, -1, free, s);
        let k_low = walk_reaches(lo, -1, free, k);
        if s_low {
            lemma_line_coords(lo, s);
        } else {
            lemma_line_coords(hi, s);
        }
        if k_low {
            lemma_line_coords(lo, k);
        } else {
            lemma_line_coords(hi, k);
        }
        if s_low && k_low {
            if s < k {
                lemma_walk_coords(lo, -1, lo - k, k);
                assert(between(lo, s, k));
                lemma_has_not(self.occ_all(), k);
            } else {
                lemma_walk_coords(lo, -1, lo - s, s);
                assert(between(lo, k, s));
                lemma_has_not(self.occ_all(), s);
            }
        }
        if !s_low && !k_low {
            if s < k {
                lemma_walk_coords(hi, 1, s - hi, s);
                assert(between(hi, k, s));
                lemma_has_not(self.occ_all(), s);
            } else {
                lemma_walk_coords(hi, 1, k - hi, k);
                assert(between(hi, s, k));
                lemma_has_not(self.occ_all(), k);
            }
        }
        assert(rook_line(s, k));
        assert forall|c: int| is_sq(c) && #[trigger] between(s, k, c) implies c != to && (!has_sq(
            self.occ_all(),
            c,
        ) || c == f || c == v) by {
            lemma_line_coords(s, k);
            lemma_line_coords(s, c);
            lemma_has_not(self.occ_all(), c);
            let low_end = if s < k {
                s
            } else {
                k
            };
            let high_end = if s < k {
                k
            } else {
                s
            };
            if c < lo {
                lemma_walk_coords(lo, -1, lo - c, c);
                assert(between(lo, low_end, c));
            } else if c > hi {
                lemma_walk_coords(hi, 1, c - hi, c);
                assert(between(hi, high_end, c));
            }
        }
        self.lemma_attack_lasts(mv, after, p, s);
    }

    /// A legal move of a piece is a move that move generation gives. This
    /// holds of every position in order but those in double check, for the
    /// capture in passing.
    pub proof fn lemma_legal_is_generated(&self, mv: &Move, after: &Board)
        requires
            self.ready(),
            self.legal_plain(mv, after),
            !(mv.from_piece_idx == PIECE_PAWN && has_sq(self.en_passant_mask, mv.to_sq())
                && self.in_double_check()),
        ensures
            self.generates_plain(mv),
    {
        let m = self.turn_idx as int;
        let o = 1 - m;
        let k = self.king_sq(m);
        let f = mv.from_sq();
        let t = mv.to_sq();
        let p = mv.from_piece_idx as int;
        let v = self.en_passant_sq() - 8 * pawn_dy(m);
        self.lemma_after_pseudo(mv, after);
        self.lemma_pseudo_ok(mv);
        if p == PIECE_KING {
            if self.attacked_by(o, t) {
                self.lemma_king_exposed(mv, after);
            }
        } else {
            if p == PIECE_PAWN && has_sq(self.en_passant_mask, t) && self.en_passant_pinned(f) {
                self.lemma_rank_exposed(mv, after);
            }
            if self.is_pinned(m, f) && !on_ray(k, f, t) {
                self.lemma_pin_exposed(mv, after);
            }
            if self.in_double_check() {
                self.lemma_double_exposed(mv, after);
            }
            if !self.resolves_check(t) {
                let a = choose|a: int|
                    is_sq(a) && #[trigger] self.checker(a) && !(t == k || t == a || between(
                        k,
                        a,
                        t,
                    ));
                if !(mv.takes_en_passant() && a == v) {
                    self.lemma_check_lasts(mv, after, a);
                } else if !self.takes_checker_in_passing(t) {
                    let other = choose|other: int|
                        is_sq(other) && #[trigger] self.checker(other) && other != v;
                    assert(self.checker(a) && self.checker(other) && a != other);
                    assert(self.in_double_check());
                }
            }
            assert(self.reaches(p, f, t));
        }
    }

    /// But for captures in passing in positions that no game comes to, the
    /// moves of pieces that move generation gives are the legal ones: those
    /// that move a piece as its kind moves and do not leave the king of the
    /// side that moves in check.
    pub proof fn lemma_generated_iff_legal(&self, mv: &Move, after: &Board)
        requires
            self.ready(),
            self.moved_to(mv, after),
            !(mv.from_piece_idx == PIECE_PAWN && has_sq(self.en_passant_mask, mv.to_sq()) && (
            self.in_double_check() || self.victim_shields())),
        ensures
            self.generates_plain(mv) == self.legal_plain(mv, after),
    {
        if self.generates_plain(mv) {
            self.lemma_generated_is_pseudo(mv);
            self.lemma_pseudo_ok(mv);
            self.lemma_no_self_check(mv, after);
        }
        if self.legal_plain(mv, after) {
            self.lemma_legal_is_generated(mv, after);
        }
    }
}

} // verus!
