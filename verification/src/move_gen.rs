//! The legal moves of a position.

use vstd::prelude::*;
use crate::bitmask::{
    BitMask, has_sq, sq_mask, is_square, lowest_sq, file_of, rank_of, on_board, sq_at,
    group_has_sq, lemma_is_square, lemma_square, bm_to_idx, bm_shift, bm_make_column, bm_make_row,
    bm_iter_bits,
};
use crate::bitmask::{
    lemma_has_test, lemma_has_nonzero, lemma_nonempty, lemma_only_square, lemma_ext,
    lemma_remove_lowest,
};
use crate::geometry::{is_sq, between, on_ray, lemma_sq_at, lemma_line_coords};
use crate::board::{
    Board, Move, attacks_sq, pawn_attacks, pawn_dy, king_home, PIECE_PAWN, PIECE_KING, PIECE_ROOK,
    PIECE_QUEEN,
};
use crate::lookup_gen::{
    get_piece_tos, walk_in_dir, walk_reaches, piece_attacks, lemma_piece_attacks_own_square,
};
use crate::move_gen::emit::{emit_moves, lemma_flag_bits, lemma_push_contains, lemma_push_no_duplicates};
use crate::move_gen::targets::{check_mask, target_squares};
use crate::Tables;

pub mod complete;
pub mod emit;
pub mod laws;
pub mod targets;

verus! {

/// The squares that the pawns in `pawns` attack towards one side (0: the
/// lower files, 1: the higher files), advancing by `pawn_advance_dy` ranks.
pub fn generate_pawn_attacks_side(side: usize, pawns: BitMask, pawn_advance_dy: i64) -> (attacks:
    BitMask)
    requires
        side < 2,
        pawn_advance_dy == 1 || pawn_advance_dy == -1,
    ensures
        forall|b: int|
            #![trigger has_sq(attacks, b)]
            is_sq(b) ==> has_sq(attacks, b) == {
                let ax = file_of(b) - (2 * side - 1);
                let ay = rank_of(b) - pawn_advance_dy;
                on_board(ax, ay) && has_sq(pawns, sq_at(ax, ay))
            },
{
    broadcast use group_has_sq;
    // A pawn on the outermost file attacks nothing beyond it.

    let capture_mask: BitMask = if side == 0 {
        !bm_make_column(0)
    } else {
        !bm_make_column(7)
    };
    let attacks = bm_shift(
        pawns & capture_mask,
        if side == 0 {
            -1
        } else {
            1
        },
        pawn_advance_dy,
    );
    proof {
        assert forall|b: int| #![trigger has_sq(attacks, b)] is_sq(b) implies has_sq(attacks, b) == {
            let ax = file_of(b) - (2 * side - 1);
            let ay = rank_of(b) - pawn_advance_dy;
            on_board(ax, ay) && has_sq(pawns, sq_at(ax, ay))
        } by {
            let ax = file_of(b) - (2 * side - 1);
            let ay = rank_of(b) - pawn_advance_dy;
            let a = b - ((2 * side - 1) + 8 * pawn_advance_dy);
            assert(has_sq(attacks, b) == has_sq(pawns & capture_mask, a));
            assert(a == ax + 8 * ay);
            if on_board(ax, ay) {
                lemma_sq_at(ax, ay);
                assert(has_sq(capture_mask, a));
            } else if is_sq(a) {
                assert(!(0 <= ax < 8));
                assert(file_of(a) == (if side == 0 {
                    0int
                } else {
                    7int
                }));
                assert(!has_sq(capture_mask, a));
            }
        }
    }
    attacks
}

/// The squares that the piece of side `team_idx` and kind `piece_idx` on the
/// square of `from` attacks. Sliding attacks pass through the other side's king.
pub fn generate_attacks(
    tables: &Tables,
    board: &Board,
    team_idx: usize,
    piece_idx: usize,
    from: BitMask,
) -> (attacks: BitMask)
    requires
        tables.wf(),
        team_idx < 2,
        is_square(from),
    ensures
        forall|b: int|
            is_sq(b) ==> #[trigger] has_sq(attacks, b) == attacks_sq(
                team_idx as int,
                piece_idx as int,
                lowest_sq(from),
                (board.occupancy[0] | board.occupancy[1]) & !board.pieces[1 - team_idx][PIECE_KING as int],
                b,
            ),
{
    broadcast use group_has_sq;

    let opp_king = board.pieces[1 - team_idx][PIECE_KING];
    let occ_for_attack = board.combined_occupancy() & !opp_king;
    let ghost a = lowest_sq(from);
    proof {
        lemma_is_square(from);
    }
    let mut attacks: BitMask = 0;
    if piece_idx == PIECE_PAWN {
        let pawn_advance_dy: i64 = if team_idx == 0 {
            1
        } else {
            -1
        };
        let both_sides = generate_pawn_attacks_side(0, from, pawn_advance_dy)
            | generate_pawn_attacks_side(1, from, pawn_advance_dy);
        attacks |= both_sides;
        proof {
            assert forall|b: int| is_sq(b) implies #[trigger] has_sq(attacks, b) == pawn_attacks(
                team_idx as int,
                a,
                b,
            ) by {
                let ay = rank_of(b) - pawn_advance_dy;
                if on_board(file_of(b) + 1, ay) {
                    lemma_sq_at(file_of(b) + 1, ay);
                }
                if on_board(file_of(b) - 1, ay) {
                    lemma_sq_at(file_of(b) - 1, ay);
                }
            }
        }
    } else {
        let idx = bm_to_idx(from);
        let tos = get_piece_tos(tables, piece_idx, from, idx, occ_for_attack);
        attacks |= tos;
        proof {
            assert forall|b: int| is_sq(b) implies #[trigger] has_sq(attacks, b) == attacks_sq(
                team_idx as int,
                piece_idx as int,
                a,
                occ_for_attack,
                b,
            ) by {
                lemma_piece_attacks_own_square(piece_idx as int, a, occ_for_attack, b);
            }
        }
    }
    attacks
}

impl Board {
    /// The position is in order but for the hash, which move generation does
    /// not read.
    pub open spec fn ready(&self) -> bool {
        self.wf_core() && self.occupancy_ok() && self.fresh()
    }

    /// A piece of the other side stands on `t`.
    pub open spec fn captures_on(&self, t: int) -> bool {
        has_sq(self.occ(1 - self.turn_idx), t)
    }

    /// The kind after the move and the flags are those of a move of the piece
    /// of kind `from_piece_idx` between the two squares: a pawn that reaches
    /// the last rank promotes to knight, bishop, rook or queen; a pawn that
    /// lands on the en-passant square takes in passing; a pawn that goes two
    /// ranks makes a double step; and a move to a square that holds a piece
    /// of the other side is a capture.
    pub open spec fn shape_ok(&self, mv: &Move) -> bool {
        let m = self.turn_idx as int;
        let f = mv.from_sq();
        let t = mv.to_sq();
        let takes: int = if self.captures_on(t) {
            1
        } else {
            0
        };
        if mv.from_piece_idx == PIECE_PAWN {
            if rank_of(t) == Self::promotion_rank(m) {
                1 <= mv.to_piece_idx <= 4 && mv.flags == 8 + takes
            } else if has_sq(self.en_passant_mask, t) {
                mv.to_piece_idx == PIECE_PAWN && mv.flags == 5
            } else if t == f + 16 * pawn_dy(m) {
                mv.to_piece_idx == PIECE_PAWN && mv.flags == 2
            } else {
                mv.to_piece_idx == PIECE_PAWN && mv.flags == takes
            }
        } else {
            mv.to_piece_idx == mv.from_piece_idx && mv.flags == takes
        }
    }

    /// The side `team_idx` may castle on wing `side` (0: queen's, 1: king's):
    /// it has the right, is not in check (`is_in_check`), the squares between
    /// king and rook are empty, and the stored attacks of the other side
    /// hold none of the squares that the king passes over or lands on.
    pub open spec fn spec_can_castle(&self, side: int, team_idx: int, is_in_check: bool) -> bool {
        let base = 56 * team_idx;
        let occ = self.occupancy[0] | self.occupancy[1];
        let attacked = self.attacks[1 - team_idx];
        &&& self.castle_rights[team_idx][side]
        &&& !is_in_check
        &&& if side == 0 {
            &&& !has_sq(occ, base + 1) && !has_sq(occ, base + 2) && !has_sq(occ, base + 3)
            &&& !has_sq(attacked, base + 2) && !has_sq(attacked, base + 3)
        } else {
            &&& !has_sq(occ, base + 5) && !has_sq(occ, base + 6)
            &&& !has_sq(attacked, base + 5) && !has_sq(attacked, base + 6)
        }
    }

    /// The move is a piece's or pawn's move that move generation gives.
    pub open spec fn generates_plain(&self, mv: &Move) -> bool {
        let m = self.turn_idx as int;
        &&& is_square(mv.from)
        &&& is_square(mv.to)
        &&& mv.from_piece_idx < 6
        &&& self.piece_on(m, mv.from_piece_idx as int, mv.from_sq())
        &&& self.reaches(mv.from_piece_idx as int, mv.from_sq(), mv.to_sq())
        &&& self.shape_ok(mv)
    }

    /// The move is a castling move that move generation gives: the king goes
    /// two squares towards the rook of a wing on which its side may castle.
    pub open spec fn generates_castle(&self, mv: &Move) -> bool {
        let m = self.turn_idx as int;
        let k = self.king_sq(m);
        &&& mv.from == self.pieces[m][PIECE_KING as int]
        &&& mv.from_piece_idx == PIECE_KING
        &&& mv.to_piece_idx == PIECE_KING
        &&& mv.flags == 16
        &&& (mv.to == sq_mask(k - 2) && self.spec_can_castle(0, m, self.in_check())) || (mv.to
            == sq_mask(k + 2) && self.spec_can_castle(1, m, self.in_check()))
    }

    /// The castling moves of the side to move as they are written down: to
    /// the queen's wing first.
    pub open spec fn castle_moves(&self) -> Seq<Move> {
        let m = self.turn_idx as int;
        let k = self.king_sq(m);
        let king = self.pieces[m][PIECE_KING as int];
        let queen_side = if self.spec_can_castle(0, m, self.in_check()) {
            seq![
                Move { from: king, to: sq_mask(k - 2), from_piece_idx: 5, to_piece_idx: 5, flags: 16 },
            ]
        } else {
            Seq::empty()
        };
        let king_side = if self.spec_can_castle(1, m, self.in_check()) {
            seq![
                Move { from: king, to: sq_mask(k + 2), from_piece_idx: 5, to_piece_idx: 5, flags: 16 },
            ]
        } else {
            Seq::empty()
        };
        queen_side + king_side
    }

    /// `mask` holds the squares that the piece of kind `p` on `f` can go to.
    pub open spec fn is_target_mask(&self, p: int, f: int, mask: BitMask) -> bool {
        forall|t: int| is_sq(t) ==> #[trigger] has_sq(mask, t) == self.reaches(p, f, t)
    }

    /// The squares that the piece of kind `p` on `f` can go to, as a mask.
    pub open spec fn target_mask(&self, p: int, f: int) -> BitMask {
        choose|mask: BitMask| #[trigger] self.is_target_mask(p, f, mask)
    }

    /// The moves of the piece of kind `p` on the square of `from` as they are
    /// written down: for the king the castling moves first, then the moves
    /// to each square that the piece can go to, the lowest square first.
    pub open spec fn piece_seq(&self, p: int, from: BitMask) -> Seq<Move> {
        (if p == PIECE_KING {
            self.castle_moves()
        } else {
            Seq::empty()
        }) + self.target_moves(p, from, self.target_mask(p, lowest_sq(from)))
    }

    /// The moves of the pieces of kind `p` on the squares of `froms`, the
    /// piece on the lowest square first.
    pub open spec fn kind_moves(&self, p: int, froms: BitMask) -> Seq<Move>
        decreases froms,
    {
        if froms == 0 {
            Seq::empty()
        } else {
            let from = sq_mask(lowest_sq(froms));
            if froms & !from < froms {
                self.piece_seq(p, from) + self.kind_moves(p, froms & !from)
            } else {
                Seq::empty()
            }
        }
    }

    /// The moves of the pieces of kind `p` and of the kinds after it.
    pub open spec fn moves_from_kind(&self, p: int) -> Seq<Move>
        decreases 6 - p,
    {
        if p < 0 || p >= 6 {
            Seq::empty()
        } else {
            self.kind_moves(p, self.pieces[self.turn_idx as int][p]) + self.moves_from_kind(p + 1)
        }
    }

    /// The moves of the side to move in the order in which move generation
    /// gives them: pawns, knights, bishops, rooks, queens, king; within a
    /// kind the piece on the lowest square first; for each piece the lowest
    /// square that it can go to first.
    pub open spec fn move_list(&self) -> Seq<Move> {
        self.moves_from_kind(0)
    }

    /// The move is one that move generation gives for this position.
    pub open spec fn generates(&self, mv: &Move) -> bool {
        self.generates_plain(mv) || self.generates_castle(mv)
    }

    /// The piece of the side not to move on `a` gives check.
    pub open spec fn checker(&self, a: int) -> bool {
        self.gives_check(1 - self.turn_idx, a)
    }

    /// The side to move is in check.
    pub open spec fn in_check(&self) -> bool {
        exists|a: int| is_sq(a) && #[trigger] self.checker(a)
    }

    /// Two pieces give check at once.
    pub open spec fn in_double_check(&self) -> bool {
        exists|a1: int, a2: int|
            is_sq(a1) && is_sq(a2) && a1 != a2 && #[trigger] self.checker(a1)
                && #[trigger] self.checker(a2)
    }

    /// A piece that lands on `t` takes every checking piece or stands between
    /// it and the king.
    pub open spec fn resolves_check(&self, t: int) -> bool {
        let k = self.king_sq(self.turn_idx as int);
        forall|a: int|
            is_sq(a) && #[trigger] self.checker(a) ==> (t == k || t == a || between(k, a, t))
    }

    /// The square of the en-passant mask (64 where there is none).
    pub open spec fn en_passant_sq(&self) -> int {
        lowest_sq(self.en_passant_mask)
    }

    /// From `lo` looking down the rank, or from `hi` looking up it, the first
    /// piece met stands on `x` (or `x` is one of the two squares or an empty
    /// square on the way).
    pub open spec fn rank_sees(&self, lo: int, hi: int, x: int) -> bool {
        walk_reaches(lo, -1, !self.occ_all(), x) || walk_reaches(hi, 1, !self.occ_all(), x)
    }

    /// With the two neighbouring squares `lo` and `hi` left out of account,
    /// the king of the side to move and a rook or queen of the other side
    /// see each other along the rank.
    pub open spec fn rank_opened(&self, lo: int, hi: int) -> bool {
        let m = self.turn_idx as int;
        &&& self.rank_sees(lo, hi, self.king_sq(m))
        &&& exists|s: int|
            is_sq(s) && (self.piece_on(1 - m, PIECE_ROOK as int, s) || self.piece_on(
                1 - m,
                PIECE_QUEEN as int,
                s,
            )) && #[trigger] self.rank_sees(lo, hi, s)
    }

    /// Taking in passing with the pawn on `f` would open the rank between
    /// the king and a rook or queen of the other side: the two pawns that
    /// leave the rank are all that stands between them.
    pub open spec fn en_passant_pinned(&self, f: int) -> bool {
        let v = self.en_passant_sq() - 8 * pawn_dy(self.turn_idx as int);
        if f < v {
            self.rank_opened(f, v)
        } else {
            self.rank_opened(v, f)
        }
    }

    /// The first rank of the pawns of side `m`.
    pub open spec fn pawn_start_rank(m: int) -> int {
        if m == 0 {
            1
        } else {
            6
        }
    }

    /// The rank on which the pawns of side `m` promote.
    pub open spec fn promotion_rank(m: int) -> int {
        if m == 0 {
            7
        } else {
            0
        }
    }

    /// The pawn of the side to move on `f` can go to `t`: one step ahead to
    /// an empty square, two from its first rank over empty squares, or
    /// aslant to a square that holds a piece of the other side or is the
    /// en-passant square; but not in passing where that would open the rank
    /// of the king to a rook or queen.
    pub open spec fn pawn_reaches(&self, f: int, t: int) -> bool {
        let m = self.turn_idx as int;
        let dy = pawn_dy(m);
        let occ = self.occ_all();
        let e = self.en_passant_sq();
        let step = t == f + 8 * dy && !has_sq(occ, t);
        let double = rank_of(f) == Self::pawn_start_rank(m) && t == f + 16 * dy && !has_sq(
            occ,
            f + 8 * dy,
        ) && !has_sq(occ, t);
        let takes = pawn_attacks(m, f, t) && (has_sq(self.occ(1 - m), t) || has_sq(
            self.en_passant_mask,
            t,
        ));
        &&& is_sq(t)
        &&& step || double || takes
        &&& !(has_sq(self.en_passant_mask, t) && pawn_attacks(m, f, e) && self.en_passant_pinned(f))
    }

    /// The piece of the side to move, of kind `p` on `f`, can go to `t`.
    ///
    /// It moves there as its kind moves, over the pieces that stand on the
    /// board; `t` holds no piece of its own side and not the other king. A
    /// king does not go to a square that the other side attacks. Any other
    /// piece, where it is pinned, stays on the line from its king through
    /// itself; in check it takes the checking piece (a pawn may take it in
    /// passing) or steps between it and the king; and in double check it
    /// does not move at all.
    pub open spec fn reaches(&self, p: int, f: int, t: int) -> bool {
        let m = self.turn_idx as int;
        let k = self.king_sq(m);
        &&& is_sq(t)
        &&& if p == PIECE_PAWN {
            self.pawn_reaches(f, t)
        } else {
            piece_attacks(p, f, self.occ_all(), t)
        }
        &&& !has_sq(self.occ(m), t)
        &&& !self.piece_on(1 - m, PIECE_KING as int, t)
        &&& if p == PIECE_KING {
            !self.attacked_by(1 - m, t)
        } else {
            &&& self.is_pinned(m, f) ==> (t == k || on_ray(k, f, t))
            &&& self.resolves_check(t) || (p == PIECE_PAWN && self.takes_checker_in_passing(t))
            &&& !self.in_double_check()
        }
    }

    /// A pawn that lands on `t` takes in passing, and the pawn that it takes
    /// is the only piece that may give check.
    pub open spec fn takes_checker_in_passing(&self, t: int) -> bool {
        let v = self.en_passant_sq() - 8 * pawn_dy(self.turn_idx as int);
        has_sq(self.en_passant_mask, t) && forall|a: int|
            is_sq(a) && #[trigger] self.checker(a) ==> a == v
    }
}

/// Whether taking in passing with the pawn on `pawn_from` would open the
/// rank between the king of side `turn_idx` and a rook or queen of the other
/// side. The capture takes two pawns off the rank at once, which the pins do
/// not see.
pub fn is_en_passant_pinned_horizontal(
    board: &Board,
    pawn_from: BitMask,
    turn_idx: usize,
    pawn_advance_dy: i64,
) -> (pinned: bool)
    requires
        is_square(pawn_from),
        turn_idx < 2,
        turn_idx == board.turn_idx,
        pawn_advance_dy == pawn_dy(turn_idx as int),
        board.occupancy_ok(),
        is_square(board.pieces[turn_idx as int][PIECE_KING as int]),
        is_square(board.en_passant_mask),
        is_sq(board.en_passant_sq() - 8 * pawn_dy(turn_idx as int)),
        rank_of(lowest_sq(pawn_from)) == rank_of(board.en_passant_sq() - 8 * pawn_dy(turn_idx as int)),
        lowest_sq(pawn_from) != board.en_passant_sq() - 8 * pawn_dy(turn_idx as int),
    ensures
        pinned == board.en_passant_pinned(lowest_sq(pawn_from)),
{
    broadcast use group_has_sq;

    let ghost f = lowest_sq(pawn_from);
    let ghost m = turn_idx as int;
    let ghost v = board.en_passant_sq() - 8 * pawn_dy(m);
    let ghost lo = if f < v {
        f
    } else {
        v
    };
    let ghost hi = if f < v {
        v
    } else {
        f
    };
    let ghost k = board.king_sq(m);
    proof {
        lemma_is_square(pawn_from);
        lemma_is_square(board.en_passant_mask);
    }
    let rank_mask = bm_make_row(crate::bitmask::bm_to_xy(pawn_from).1);
    let opp_horizontal_sliders = board.pieces[1 - turn_idx][PIECE_ROOK] | board.pieces[1
        - turn_idx][PIECE_QUEEN];
    // The pawn that would be taken.
    let target_pawn_pos = bm_shift(board.en_passant_mask, 0, -pawn_advance_dy);
    proof {
        assert forall|c: int| 0 <= c < 64 implies has_sq(target_pawn_pos, c) == (c == v) by {}
        lemma_only_square(target_pawn_pos, v);
        lemma_square(v);
        lemma_square(f);
        crate::board::apply::lemma_mask_order(f, v);
    }
    // The lower and the higher of the two pawns' squares.
    let left_pos = if pawn_from < target_pawn_pos {
        pawn_from
    } else {
        target_pawn_pos
    };
    let right_pos = if pawn_from < target_pawn_pos {
        target_pawn_pos
    } else {
        pawn_from
    };
    let occ_combined = board.combined_occupancy();
    let left_walk_mask = walk_in_dir(-1, left_pos, !occ_combined);
    let right_walk_mask = walk_in_dir(1, right_pos, !occ_combined);
    let combined_walk_mask = left_walk_mask | right_walk_mask;
    let king = board.pieces[turn_idx][PIECE_KING];
    proof {
        assert(lowest_sq(left_pos) == lo && lowest_sq(right_pos) == hi);
        assert(occ_combined == board.occ_all());
        assert forall|x: int| is_sq(x) implies has_sq(combined_walk_mask, x) == board.rank_sees(
            lo,
            hi,
            x,
        ) by {}
    }
    let sees_slider = (opp_horizontal_sliders & combined_walk_mask) != 0;
    let sees_king = (combined_walk_mask & king) != 0;
    proof {
        lemma_is_square(king);
        lemma_has_test(combined_walk_mask, k);
        assert(sees_king == board.rank_sees(lo, hi, k));
        let both = opp_horizontal_sliders & combined_walk_mask;
        if sees_slider {
            lemma_nonempty(both);
            let s = lowest_sq(both);
            assert(board.rank_sees(lo, hi, s));
        }
        if exists|s: int|
            is_sq(s) && (board.piece_on(1 - m, PIECE_ROOK as int, s) || board.piece_on(
                1 - m,
                PIECE_QUEEN as int,
                s,
            )) && #[trigger] board.rank_sees(lo, hi, s) {
            let s = choose|s: int|
                is_sq(s) && (board.piece_on(1 - m, PIECE_ROOK as int, s) || board.piece_on(
                    1 - m,
                    PIECE_QUEEN as int,
                    s,
                )) && #[trigger] board.rank_sees(lo, hi, s);
            assert(has_sq(both, s));
            lemma_has_nonzero(both, s);
        }
    }
    // Only where a rook or queen stands on the rank can there be such a pin.
    if rank_mask & opp_horizontal_sliders != 0 {
        sees_slider && sees_king
    } else {
        proof {
            if sees_slider {
                let both = opp_horizontal_sliders & combined_walk_mask;
                let s = lowest_sq(both);
                assert(has_sq(both, s));
                assert(board.rank_sees(lo, hi, s));
                if s != lo && s != hi {
                    if walk_reaches(lo, -1, !board.occ_all(), s) {
                        lemma_line_coords(lo, s);
                    } else {
                        lemma_line_coords(hi, s);
                    }
                }
                assert(rank_of(s) == rank_of(f));
                assert(has_sq(rank_mask & opp_horizontal_sliders, s));
                lemma_has_nonzero(rank_mask & opp_horizontal_sliders, s);
            }
        }
        false
    }
}


proof fn bv_castle_masks(x: u64)
    by (bit_vector)
    ensures
        (x & 0x0e == 0) == ((x >> 1) & 1 != 1 && (x >> 2) & 1 != 1 && (x >> 3) & 1 != 1),
        (x & 0x60 == 0) == ((x >> 5) & 1 != 1 && (x >> 6) & 1 != 1),
        (x & 0x0c == 0) == ((x >> 2) & 1 != 1 && (x >> 3) & 1 != 1),
        (x & 0x0e00_0000_0000_0000 == 0) == ((x >> 57) & 1 != 1 && (x >> 58) & 1 != 1 && (x >> 59)
            & 1 != 1),
        (x & 0x6000_0000_0000_0000 == 0) == ((x >> 61) & 1 != 1 && (x >> 62) & 1 != 1),
        (x & 0x0c00_0000_0000_0000 == 0) == ((x >> 58) & 1 != 1 && (x >> 59) & 1 != 1),
{
}

/// Whether side `team_idx` may castle on wing `side` (0: queen's, 1: king's).
pub fn can_castle(side: usize, board: &Board, team_idx: usize, is_in_check: bool) -> (can: bool)
    requires
        side < 2,
        team_idx < 2,
    ensures
        can == board.spec_can_castle(side as int, team_idx as int, is_in_check),
{
    // The squares between king and rook.
    let empty_mask: BitMask = if team_idx == 0 {
        if side == 0 {
            0x0e
        } else {
            0x60
        }
    } else {
        if side == 0 {
            0x0e00_0000_0000_0000
        } else {
            0x6000_0000_0000_0000
        }
    };
    // The squares that the king passes over and lands on.
    let safety_mask: BitMask = if team_idx == 0 {
        if side == 0 {
            0x0c
        } else {
            0x60
        }
    } else {
        if side == 0 {
            0x0c00_0000_0000_0000
        } else {
            0x6000_0000_0000_0000
        }
    };
    proof {
        bv_castle_masks(board.occupancy[0] | board.occupancy[1]);
        bv_castle_masks(board.attacks[1 - team_idx]);
    }
    if !board.castle_rights[team_idx][side] {
        return false;
    }
    if is_in_check {
        return false;
    }
    if (board.combined_occupancy() & empty_mask) != 0 {
        return false;
    }
    if (board.attacks[1 - team_idx] & safety_mask) != 0 {
        return false;
    }
    true
}

/// Adds the castling moves of the side to move.
fn emit_castles(moves: &mut Vec<Move>, board: &Board, num_checkers: u32)
    requires
        board.ready(),
        (num_checkers != 0) == board.in_check(),
        old(moves)@.no_duplicates(),
        forall|mv: Move|
            #![trigger old(moves)@.contains(mv)]
            old(moves)@.contains(mv) ==> !board.generates_castle(&mv),
    ensures
        final(moves)@.no_duplicates(),
        forall|mv: Move|
            #![trigger final(moves)@.contains(mv)]
            final(moves)@.contains(mv) == (old(moves)@.contains(mv) || board.generates_castle(&mv)),
        final(moves)@ == old(moves)@ + board.castle_moves(),
{
    let ghost m = board.turn_idx as int;
    let ghost k = board.king_sq(m);
    let king = board.pieces[board.turn_idx][PIECE_KING];
    proof {
        lemma_is_square(king);
    }
    let ghost before = moves@;
    let queen_side = can_castle(0, board, board.turn_idx, num_checkers != 0);
    if queen_side {
        let to = bm_shift(king, -2, 0);
        proof {
            assert(board.castle_rights[m][0]);
            assert(k == king_home(m));
            assert forall|c: int| 0 <= c < 64 implies has_sq(to, c) == (c == k - 2) by {}
            lemma_only_square(to, k - 2);
        }
        moves.push(
            Move {
                from: king,
                to,
                from_piece_idx: PIECE_KING,
                to_piece_idx: PIECE_KING,
                flags: Move::FLAG_CASTLE,
            },
        );
    }
    let ghost middle = moves@;
    let king_side = can_castle(1, board, board.turn_idx, num_checkers != 0);
    if king_side {
        let to = bm_shift(king, 2, 0);
        proof {
            assert(board.castle_rights[m][1]);
            assert(k == king_home(m));
            assert forall|c: int| 0 <= c < 64 implies has_sq(to, c) == (c == k + 2) by {}
            lemma_only_square(to, k + 2);
        }
        moves.push(
            Move {
                from: king,
                to,
                from_piece_idx: PIECE_KING,
                to_piece_idx: PIECE_KING,
                flags: Move::FLAG_CASTLE,
            },
        );
    }
    proof {
        let q = Move {
            from: king,
            to: sq_mask(k - 2),
            from_piece_idx: PIECE_KING,
            to_piece_idx: PIECE_KING,
            flags: 16,
        };
        let r = Move {
            from: king,
            to: sq_mask(k + 2),
            from_piece_idx: PIECE_KING,
            to_piece_idx: PIECE_KING,
            flags: 16,
        };
        if queen_side {
            lemma_square(k - 2);
            assert(board.generates_castle(&q));
            lemma_push_no_duplicates(before, q);
        }
        if king_side {
            lemma_square(k + 2);
            assert(board.generates_castle(&r));
            lemma_push_contains(before, q, r);
            lemma_push_no_duplicates(middle, r);
        }
        assert forall|mv: Move|
            #![trigger moves@.contains(mv)]
            moves@.contains(mv) == (before.contains(mv) || board.generates_castle(&mv)) by {
            lemma_push_contains(before, q, mv);
            lemma_push_contains(middle, r, mv);
        }
        assert(moves@ =~= before + board.castle_moves());
    }
}

/// Adds the moves of the piece of the side to move, of kind `piece_idx` on
/// the square of `from`. `num_checkers` and `move_mask` are what `check_mask`
/// found.
fn piece_moves(
    moves: &mut Vec<Move>,
    tables: &Tables,
    board: &Board,
    piece_idx: usize,
    from: BitMask,
    num_checkers: u32,
    move_mask: BitMask,
)
    requires
        tables.wf(),
        board.ready(),
        piece_idx < 6,
        is_square(from),
        board.piece_on(board.turn_idx as int, piece_idx as int, lowest_sq(from)),
        (num_checkers != 0) == board.in_check(),
        (num_checkers > 1) == board.in_double_check(),
        num_checkers <= 1 ==> forall|t: int|
            is_sq(t) ==> #[trigger] has_sq(move_mask, t) == board.resolves_check(t),
        old(moves)@.no_duplicates(),
        forall|mv: Move|
            #![trigger old(moves)@.contains(mv)]
            old(moves)@.contains(mv) ==> mv.from != from,
    ensures
        final(moves)@.no_duplicates(),
        forall|mv: Move|
            #![trigger final(moves)@.contains(mv)]
            final(moves)@.contains(mv) == (old(moves)@.contains(mv) || (board.generates(&mv)
                && mv.from == from)),
        final(moves)@ == old(moves)@ + board.piece_seq(piece_idx as int, from),
{
    let ghost m = board.turn_idx as int;
    let ghost f = lowest_sq(from);
    let ghost k = board.king_sq(m);
    let ghost before = moves@;
    proof {
        lemma_is_square(from);
        lemma_is_square(board.pieces[m][PIECE_KING as int]);
        board.lemma_only_holder(m, piece_idx as int, f);
    }
    if num_checkers > 1 && piece_idx != PIECE_KING {
        // In double check the king must move.
        proof {
            assert forall|mv: Move|
                #![trigger before.contains(mv)]
                !(board.generates(&mv) && mv.from == from) by {
                if board.generates_castle(&mv) && mv.from == from {
                    assert(board.piece_on(m, PIECE_KING as int, f));
                }
            }
            let none = board.target_mask(piece_idx as int, f);
            assert(board.is_target_mask(piece_idx as int, f, 0)) by {
                assert forall|t: int| is_sq(t) implies #[trigger] has_sq(0, t) == board.reaches(
                    piece_idx as int,
                    f,
                    t,
                ) by {
                    crate::bitmask::lemma_has_zero(t);
                }
            }
            assert forall|t: int| 0 <= t < 64 implies !has_sq(none, t) by {
                assert(has_sq(none, t) == board.reaches(piece_idx as int, f, t));
            }
            crate::bitmask::lemma_empty(none);
            assert(before + board.piece_seq(piece_idx as int, from) =~= before);
        }
        return ;
    }
    let tos = target_squares(tables, board, piece_idx, from, move_mask);
    if piece_idx == PIECE_KING {
        proof {
            assert forall|mv: Move|
                #![trigger before.contains(mv)]
                before.contains(mv) implies !board.generates_castle(&mv) by {
                assert(from == board.pieces[m][PIECE_KING as int]);
            }
        }
        emit_castles(moves, board, num_checkers);
    }
    let ghost middle = moves@;
    proof {
        lemma_flag_bits();
        assert forall|mv: Move|
            #![trigger middle.contains(mv)]
            middle.contains(mv) implies !board.writes(piece_idx as int, from, mv.to, &mv) by {
            assert(middle.contains(mv) == (before.contains(mv) || (piece_idx == PIECE_KING
                && board.generates_castle(&mv))));
        }
    }
    emit_moves(moves, board, piece_idx, from, tos);
    proof {
        let mask = board.target_mask(piece_idx as int, f);
        assert(board.is_target_mask(piece_idx as int, f, tos));
        assert forall|t: int| 0 <= t < 64 implies has_sq(tos, t) == has_sq(mask, t) by {
            assert(has_sq(tos, t) == board.reaches(piece_idx as int, f, t));
            assert(has_sq(mask, t) == board.reaches(piece_idx as int, f, t));
        }
        lemma_ext(tos, mask);
        assert(moves@ =~= before + board.piece_seq(piece_idx as int, from));
        assert forall|mv: Move|
            #![trigger moves@.contains(mv)]
            moves@.contains(mv) == (before.contains(mv) || (board.generates(&mv) && mv.from
                == from)) by {
            assert(middle.contains(mv) == (before.contains(mv) || (piece_idx == PIECE_KING
                && board.generates_castle(&mv))));
            if board.generates_castle(&mv) && mv.from == from {
                assert(board.piece_on(m, PIECE_KING as int, f));
            }
            if board.generates_plain(&mv) && mv.from == from {
                assert(mv.from_piece_idx == piece_idx);
            }
            if is_square(mv.to) && has_sq(tos, mv.to_sq()) && board.writes(
                piece_idx as int,
                from,
                mv.to,
                &mv,
            ) {
                assert(board.reaches(piece_idx as int, f, mv.to_sq()));
                assert(board.generates_plain(&mv));
            }
        }
    }
}

/// All moves of the side to move: for each of its pieces the squares it may
/// go to, with promotions, en-passant captures and double steps marked, and
/// the castling moves. Each move stands in the result once, in the order of
/// `move_list`. That these are the legal moves is shown in `laws` and
/// `complete`.
pub fn generate_moves(tables: &Tables, board: &Board) -> (moves: Vec<Move>)
    requires
        tables.wf(),
        board.ready(),
    ensures
        forall|mv: Move| #![trigger moves@.contains(mv)] moves@.contains(mv) == board.generates(&mv),
        moves@.no_duplicates(),
        forall|i: int| 0 <= i < moves@.len() ==> board.move_ok(&#[trigger] moves@[i]),
        moves@ == board.move_list(),
{
    let mut moves: Vec<Move> = Vec::with_capacity(50);
    let ghost m = board.turn_idx as int;
    let (num_checkers, move_mask) = check_mask(tables, board);
    let mut piece_idx: usize = 0;
    let mut itr = bm_iter_bits(board.pieces[board.turn_idx][0]);
    let ghost mut done: BitMask = 0;
    proof {
        assert forall|a: int| !has_sq(0, a) by {
            crate::bitmask::lemma_has_zero(a);
        }
        assert(moves@ =~= Seq::<Move>::empty());
        assert(board.move_list() =~= moves@ + board.kind_moves(0, itr.remaining_mask)
            + board.moves_from_kind(1));
    }
    loop
        invariant
            tables.wf(),
            board.ready(),
            m == board.turn_idx,
            piece_idx < 6,
            (num_checkers != 0) == board.in_check(),
            (num_checkers > 1) == board.in_double_check(),
            num_checkers <= 1 ==> forall|t: int|
                is_sq(t) ==> #[trigger] has_sq(move_mask, t) == board.resolves_check(t),
            forall|a: int| has_sq(itr.remaining_mask, a) ==> board.piece_on(m, piece_idx as int, a),
            forall|p: int, a: int|
                0 <= p < 6 && is_sq(a) && #[trigger] board.piece_on(m, p, a) ==> (has_sq(done, a)
                    == (p < piece_idx || (p == piece_idx && !has_sq(itr.remaining_mask, a)))),
            forall|mv: Move|
                #![trigger moves@.contains(mv)]
                moves@.contains(mv) == (board.generates(&mv) && has_sq(done, mv.from_sq())),
            moves@.no_duplicates(),
            board.move_list() == moves@ + board.kind_moves(piece_idx as int, itr.remaining_mask)
                + board.moves_from_kind(piece_idx + 1),
        ensures
            moves@.no_duplicates(),
            board.move_list() == moves@ + board.kind_moves(piece_idx as int, itr.remaining_mask)
                + board.moves_from_kind(piece_idx + 1),
            piece_idx == 5,
            itr.remaining_mask == 0,
            forall|p: int, a: int|
                0 <= p < 6 && is_sq(a) && #[trigger] board.piece_on(m, p, a) ==> has_sq(done, a),
            forall|mv: Move|
                #![trigger moves@.contains(mv)]
                moves@.contains(mv) == (board.generates(&mv) && has_sq(done, mv.from_sq())),
        decreases 5 - piece_idx, itr.remaining_mask,
    {
        let ghost remaining = itr.remaining_mask;
        let ghost before = moves@;
        let ghost done_before = done;
        match itr.next() {
            Some(from) => {
                let ghost f0 = lowest_sq(remaining);
                proof {
                    lemma_nonempty(remaining);
                    lemma_square(f0);
                    assert forall|mv: Move|
                        #![trigger before.contains(mv)]
                        before.contains(mv) implies mv.from != from by {
                        assert(board.piece_on(m, piece_idx as int, f0));
                    }
                }
                piece_moves(&mut moves, tables, board, piece_idx, from, num_checkers, move_mask);
                proof {
                    lemma_remove_lowest(remaining);
                    assert(board.move_list() =~= moves@ + board.kind_moves(
                        piece_idx as int,
                        itr.remaining_mask,
                    ) + board.moves_from_kind(piece_idx + 1));
                    done = done | from;
                    assert forall|a: int| has_sq(done, a) == (has_sq(done_before, a) || a == f0) by {
                        crate::bitmask::lemma_has_or(done_before, from, a);
                        crate::bitmask::lemma_has_sq_mask(f0, a);
                    }
                    assert forall|p: int, a: int|
                        0 <= p < 6 && is_sq(a) && #[trigger] board.piece_on(m, p, a) implies (
                    has_sq(done, a) == (p < piece_idx || (p == piece_idx && !has_sq(
                        itr.remaining_mask,
                        a,
                    )))) by {
                        if a == f0 {
                            board.lemma_only_holder(m, piece_idx as int, f0);
                        }
                    }
                    assert forall|mv: Move|
                        #![trigger moves@.contains(mv)]
                        moves@.contains(mv) == (board.generates(&mv) && has_sq(
                            done,
                            mv.from_sq(),
                        )) by {
                        assert(before.contains(mv) == (board.generates(&mv) && has_sq(
                            done_before,
                            mv.from_sq(),
                        )));
                        if board.generates(&mv) {
                            lemma_is_square(board.pieces[m][PIECE_KING as int]);
                            assert(is_square(mv.from));
                            if mv.from_sq() == f0 {
                                assert(mv.from == from);
                            }
                        }
                    }
                }
            },
            None => {
                if piece_idx == 5 {
                    break ;
                }
                piece_idx += 1;
                itr = bm_iter_bits(board.pieces[board.turn_idx][piece_idx]);
                proof {
                    assert(board.move_list() =~= moves@ + board.kind_moves(
                        piece_idx as int,
                        itr.remaining_mask,
                    ) + board.moves_from_kind(piece_idx + 1));
                }
            },
        }
    }
    proof {
        assert(board.move_list() =~= moves@);
        assert forall|mv: Move| #![trigger moves@.contains(mv)] moves@.contains(mv)
            == board.generates(&mv) by {
            if board.generates(&mv) {
                lemma_is_square(board.pieces[m][PIECE_KING as int]);
                assert(board.piece_on(m, mv.from_piece_idx as int, mv.from_sq()));
            }
        }
        assert forall|i: int| 0 <= i < moves@.len() implies board.move_ok(&#[trigger] moves@[i]) by {
            assert(moves@.contains(moves@[i]));
            board.lemma_generated_ok(&moves@[i]);
        }
    }
    moves
}

impl Board {
    /// A move that move generation gives can be made.
    pub proof fn lemma_generated_ok(&self, mv: &Move)
        requires
            self.ready(),
            self.generates(mv),
        ensures
            self.move_ok(mv),
    {
        let m = self.turn_idx as int;
        let o = 1 - m;
        let k = self.king_sq(m);
        let f = mv.from_sq();
        let t = mv.to_sq();
        lemma_flag_bits();
        lemma_is_square(self.pieces[m][PIECE_KING as int]);
        self.lemma_occ(0, t);
        self.lemma_occ(1, t);
        if self.generates_castle(mv) && !self.generates_plain(mv) {
            let side: int = if mv.to == sq_mask(k - 2) && self.spec_can_castle(0, m, self.in_check()) {
                0
            } else {
                1
            };
            assert(self.castle_rights[m][side]);
            assert(k == king_home(m));
            lemma_square(k - 2);
            lemma_square(k + 2);
            lemma_square(k);
            assert(f == k);
            self.lemma_occ(0, mv.castle_rook_to());
            self.lemma_occ(1, mv.castle_rook_to());
            assert(self.occupancy[0] | self.occupancy[1] == self.occ_all());
        } else {
            lemma_is_square(mv.from);
            lemma_is_square(mv.to);
            assert(self.reaches(mv.from_piece_idx as int, f, t));
            if mv.from_piece_idx == PIECE_PAWN {
                assert(self.pawn_reaches(f, t));
                if self.en_passant_mask != 0 {
                    lemma_is_square(self.en_passant_mask);
                    if has_sq(self.en_passant_mask, t) {
                        lemma_square(t);
                    }
                } else {
                    crate::bitmask::lemma_has_zero(t);
                }
                self.lemma_occ(0, f + 8 * pawn_dy(m));
                self.lemma_occ(1, f + 8 * pawn_dy(m));
            }
        }
    }
}


} // verus!
