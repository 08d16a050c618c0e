//! The position: where the pieces stand, who is to move, and what follows
//! from that (occupancy, attacks, checks, pins, hash); and the moves that
//! change it.

use vstd::prelude::*;
use crate::bitmask::{
    BitMask, has_sq, sq_mask, is_square, lowest_sq, file_of, rank_of, group_has_sq, coord_text,
};
use crate::geometry::{is_sq, abs, between};
use crate::lookup_gen::{piece_attacks, base_attacks, is_slider};
use crate::zobrist::{ZobristKeys, pieces_keys, spec_hash_castle_rights, spec_hash_en_passant};
use crate::Tables;

pub mod apply;
pub mod attacks;
pub mod diagram;
pub mod laws;
pub mod setup;

verus! {

pub const PIECE_PAWN: usize = 0;

pub const PIECE_KNIGHT: usize = 1;

pub const PIECE_BISHOP: usize = 2;

pub const PIECE_ROOK: usize = 3;

pub const PIECE_QUEEN: usize = 4;

pub const PIECE_KING: usize = 5;

pub const NUM_PIECES: usize = 6;

pub const NUM_PIECES_NO_KING: usize = 5;

pub const PIECE_CHARS: [char; NUM_PIECES] = ['P', 'N', 'B', 'R', 'Q', 'K'];

pub const PIECE_NAMES: [&'static str; NUM_PIECES] = ["Pawn", "Knight", "Bishop", "Rook", "Queen", "King"];

/// One move: the squares it leaves and reaches as single-square masks, the
/// kind of the piece before and after (they differ for a promotion), and flags.
#[derive(Debug, Copy, Clone, PartialEq, Eq, Structural)]
pub struct Move {
    pub from: BitMask,
    pub to: BitMask,
    pub from_piece_idx: usize,
    pub to_piece_idx: usize,
    pub flags: u8,
}

impl Move {
    pub const FLAG_CAPTURE: u8 = 1;

    pub const FLAG_DOUBLE_PAWN_MOVE: u8 = 2;

    pub const FLAG_EN_PASSANT: u8 = 4;

    pub const FLAG_PROMOTION: u8 = 8;

    pub const FLAG_CASTLE: u8 = 16;

    /// A move with nothing filled in.
    pub fn new() -> (mv: Move)
        ensures
            mv.from == 0,
            mv.to == 0,
            mv.from_piece_idx == 0,
            mv.to_piece_idx == 0,
            mv.flags == 0,
    {
        Move { from: 0, to: 0, from_piece_idx: 0, to_piece_idx: 0, flags: 0 }
    }

    /// Whether one of the flags in `flag` is set.
    pub open spec fn spec_has_flag(&self, flag: u8) -> bool {
        self.flags & flag != 0
    }

    /// Whether one of the flags in `flag` is set.
    #[verifier::when_used_as_spec(spec_has_flag)]
    pub fn has_flag(&self, flag: u8) -> (set: bool)
        ensures
            set == self.spec_has_flag(flag),
    {
        self.flags & flag != 0
    }

    /// The move in coordinates: the square it leaves, the square it
    /// reaches, and for a promotion the small letter of the new piece.
    pub open spec fn uci_text(&self) -> Seq<char> {
        coord_text(lowest_sq(self.from)) + coord_text(lowest_sq(self.to)) + (
        if self.to_piece_idx != self.from_piece_idx {
            seq![crate::fen::piece_char(1, self.to_piece_idx as int)]
        } else {
            Seq::empty()
        })
    }

    /// The move in coordinates, such as `e2e4` or `e7e8q`.
    pub fn to_string(&self) -> (text: String)
        requires
            is_square(self.from),
            is_square(self.to),
            self.to_piece_idx < 6,
        ensures
            text@ == self.uci_text(),
    {
        let mut text = String::new();
        let (from_x, from_y) = crate::bitmask::bm_to_xy(self.from);
        let (to_x, to_y) = crate::bitmask::bm_to_xy(self.to);
        text.push(((from_x as u8) + 97) as char);
        text.push(((from_y as u8) + 49) as char);
        text.push(((to_x as u8) + 97) as char);
        text.push(((to_y as u8) + 49) as char);
        if self.to_piece_idx != self.from_piece_idx {
            text.push(crate::fen::piece_letter(1, self.to_piece_idx));
        }
        proof {
            assert(text@ =~= self.uci_text());
        }
        text
    }

    /// Whether the move neither captures nor promotes.
    pub open spec fn spec_is_quiet(&self) -> bool {
        !self.spec_has_flag(Move::FLAG_CAPTURE) && !self.spec_has_flag(Move::FLAG_PROMOTION)
    }

    /// Whether the move neither captures nor promotes.
    #[verifier::when_used_as_spec(spec_is_quiet)]
    pub fn is_quiet(&self) -> (quiet: bool)
        ensures
            quiet == self.spec_is_quiet(),
    {
        !self.has_flag(Move::FLAG_CAPTURE) && !self.has_flag(Move::FLAG_PROMOTION)
    }
}

/// The squares that hold a piece of side `t`, from the piece boards.
pub open spec fn spec_occupancy(pieces: [[BitMask; NUM_PIECES]; 2], t: int) -> BitMask {
    pieces[t][0] | pieces[t][1] | pieces[t][2] | pieces[t][3] | pieces[t][4] | pieces[t][5]
}

/// The way pawns of side `t` advance: one rank up for White, down for Black.
pub open spec fn pawn_dy(t: int) -> int {
    if t == 0 {
        1
    } else {
        -1
    }
}

/// A pawn of side `t` on `a` attacks `b`.
pub open spec fn pawn_attacks(t: int, a: int, b: int) -> bool {
    is_sq(b) && rank_of(b) == rank_of(a) + pawn_dy(t) && abs(file_of(b) - file_of(a)) == 1
}

/// A piece of side `t` and kind `p` on `a` attacks `b` over the pieces in `occ`.
pub open spec fn attacks_sq(t: int, p: int, a: int, occ: BitMask, b: int) -> bool {
    if p == PIECE_PAWN {
        pawn_attacks(t, a, b)
    } else {
        piece_attacks(p, a, occ, b)
    }
}

/// The home square of the king of side `t`.
pub open spec fn king_home(t: int) -> int {
    4 + 56 * t
}

/// The home square of the rook of side `t` on wing `side` (0: queen's, 1: king's).
pub open spec fn rook_home(t: int, side: int) -> int {
    7 * side + 56 * t
}

/// A position.
#[derive(Debug, Copy, Clone)]
pub struct Board {
    /// The side to move: 0 for White, 1 for Black.
    pub turn_idx: usize,
    /// For each side, the squares that hold one of its pieces.
    pub occupancy: [BitMask; 2],
    /// For each side, the squares that it attacks.
    pub attacks: [BitMask; 2],
    /// The pieces that give check to the side to move.
    pub checkers: BitMask,
    /// For each side, its pieces that are pinned to its king.
    pub pinned: [BitMask; 2],
    /// For each side and each kind of piece, the squares that hold one.
    pub pieces: [[BitMask; NUM_PIECES]; 2],
    /// After a double pawn move, the square that the pawn passed over.
    pub en_passant_mask: BitMask,
    /// For each side, whether it may still castle on the queen's and on the
    /// king's wing.
    pub castle_rights: [[bool; 2]; 2],
    /// The moves made since the last capture or pawn move.
    pub half_move_counter: u8,
    /// The Zobrist hash.
    pub hash: crate::zobrist::Hash,
}

impl Board {
    /// Side `t` has a piece of kind `p` on `sq`.
    pub open spec fn piece_on(&self, t: int, p: int, sq: int) -> bool {
        has_sq(self.pieces[t][p], sq)
    }

    /// The squares that hold a piece of side `t`, from the piece boards.
    pub open spec fn occ(&self, t: int) -> BitMask {
        spec_occupancy(self.pieces, t)
    }

    /// The squares that hold a piece, from the piece boards.
    pub open spec fn occ_all(&self) -> BitMask {
        self.occ(0) | self.occ(1)
    }

    /// The square of the king of side `t`.
    pub open spec fn king_sq(&self, t: int) -> int {
        lowest_sq(self.pieces[t][PIECE_KING as int])
    }

    /// What counts as standing in the way when side `t` attacks: every piece
    /// but the other side's king, so that the squares behind it are attacked too.
    pub open spec fn occ_for_attack(&self, t: int) -> BitMask {
        self.occ_all() & !self.pieces[1 - t][PIECE_KING as int]
    }

    /// The piece of side `t` and kind `p` on `a` attacks `b`.
    pub open spec fn attack_from(&self, t: int, p: int, a: int, b: int) -> bool {
        0 <= p < 6 && is_sq(a) && self.piece_on(t, p, a) && attacks_sq(
            t,
            p,
            a,
            self.occ_for_attack(t),
            b,
        )
    }

    /// Side `t` attacks the square `b`.
    pub open spec fn attacked_by(&self, t: int, b: int) -> bool {
        exists|p: int, a: int| #[trigger] self.attack_from(t, p, a, b)
    }

    /// The piece of side `t` on `a` attacks the other side's king.
    pub open spec fn gives_check(&self, t: int, a: int) -> bool {
        let k = self.king_sq(1 - t);
        exists|p: int| #[trigger] self.attack_from(t, p, a, k)
    }

    /// The slider of kind `p` of the other side on `a` pins the piece on `c`
    /// to the king of side `t`: the three stand on a line that the slider
    /// moves on, and nothing else stands between slider and king.
    pub open spec fn pins(&self, t: int, p: int, a: int, c: int) -> bool {
        let k = self.king_sq(t);
        &&& is_slider(p)
        &&& is_sq(a)
        &&& self.piece_on(1 - t, p, a)
        &&& base_attacks(p, a, k)
        &&& between(a, k, c)
        &&& forall|c2: int|
            is_sq(c2) && #[trigger] between(a, k, c2) && c2 != c ==> !has_sq(self.occ_all(), c2)
    }

    /// The piece of side `t` on `c` is pinned to its king.
    pub open spec fn is_pinned(&self, t: int, c: int) -> bool {
        has_sq(self.occ(t), c) && exists|p: int, a: int| #[trigger] self.pins(t, p, a, c)
    }

    /// No square holds two pieces.
    #[verifier::opaque]
    pub open spec fn pieces_disjoint(&self) -> bool {
        forall|t1: int, p1: int, t2: int, p2: int, sq: int|
            #![trigger self.piece_on(t1, p1, sq), self.piece_on(t2, p2, sq)]
            0 <= t1 < 2 && 0 <= p1 < 6 && 0 <= t2 < 2 && 0 <= p2 < 6 && (t1 != t2 || p1 != p2)
                ==> !(self.piece_on(t1, p1, sq) && self.piece_on(t2, p2, sq))
    }

    /// No square holds two pieces, and each side has exactly one king.
    pub open spec fn wf_pieces(&self) -> bool {
        &&& self.turn_idx < 2
        &&& is_square(self.pieces[0][PIECE_KING as int])
        &&& is_square(self.pieces[1][PIECE_KING as int])
        &&& self.pieces_disjoint()
    }

    /// Where a piece stands, no other piece stands.
    pub proof fn lemma_only_holder(&self, t: int, p: int, sq: int)
        requires
            self.pieces_disjoint(),
            0 <= t < 2,
            0 <= p < 6,
            self.piece_on(t, p, sq),
        ensures
            forall|t2: int, p2: int|
                0 <= t2 < 2 && 0 <= p2 < 6 && (t2 != t || p2 != p) ==> !#[trigger] self.piece_on(
                    t2,
                    p2,
                    sq,
                ),
            has_sq(self.occ(t), sq),
            !has_sq(self.occ(1 - t), sq),
            has_sq(self.occ_all(), sq),
    {
        reveal(Board::pieces_disjoint);
        self.lemma_occ(0, sq);
        self.lemma_occ(1, sq);
    }

    /// A side occupies a square when one of its six piece boards holds it.
    pub proof fn lemma_occ(&self, t: int, sq: int)
        ensures
            has_sq(self.occ(t), sq) == (self.piece_on(t, 0, sq) || self.piece_on(t, 1, sq)
                || self.piece_on(t, 2, sq) || self.piece_on(t, 3, sq) || self.piece_on(t, 4, sq)
                || self.piece_on(t, 5, sq)),
            has_sq(self.occ_all(), sq) == (has_sq(self.occ(0), sq) || has_sq(self.occ(1), sq)),
    {
        broadcast use group_has_sq;

    }

    /// The stored occupancy is that of the piece boards.
    pub open spec fn occupancy_ok(&self) -> bool {
        self.occupancy[0] == self.occ(0) && self.occupancy[1] == self.occ(1)
    }

    /// The Zobrist hash of the position: the XOR of the keys of every piece on
    /// its square, of the castling rights, of the en-passant square, and of
    /// Black to move.
    pub open spec fn spec_hash(&self, keys: &ZobristKeys) -> crate::zobrist::Hash {
        pieces_keys(keys, self.pieces, 12) ^ spec_hash_castle_rights(keys, self.castle_rights)
            ^ spec_hash_en_passant(keys, self.en_passant_mask) ^ (if self.turn_idx == 1 {
            keys.turn
        } else {
            0
        })
    }

    /// The stored attacks of side `t` are the squares that it attacks.
    pub open spec fn attacks_ok(&self, t: int) -> bool {
        forall|b: int| is_sq(b) ==> #[trigger] has_sq(self.attacks[t], b) == self.attacked_by(t, b)
    }

    /// The stored pins of side `t` are its pinned pieces.
    pub open spec fn pinned_ok(&self, t: int) -> bool {
        forall|c: int| is_sq(c) ==> #[trigger] has_sq(self.pinned[t], c) == self.is_pinned(t, c)
    }

    /// The stored checkers are the pieces of side `t` that attack the other king.
    pub open spec fn checkers_ok(&self, t: int) -> bool {
        forall|a: int| is_sq(a) ==> #[trigger] has_sq(self.checkers, a) == self.gives_check(t, a)
    }

    /// A castling right is only there while king and rook stand at home.
    pub open spec fn castle_ok(&self) -> bool {
        forall|t: int, side: int|
            0 <= t < 2 && 0 <= side < 2 && #[trigger] self.castle_rights[t][side]
                ==> self.piece_on(t, PIECE_KING as int, king_home(t)) && self.piece_on(
                t,
                PIECE_ROOK as int,
                rook_home(t, side),
            )
    }

    /// An en-passant square is empty, lies on the rank that the side to move
    /// captures on, and has a pawn of the other side just beyond it.
    pub open spec fn en_passant_ok(&self) -> bool {
        self.en_passant_mask == 0 || {
            let e = lowest_sq(self.en_passant_mask);
            let t = self.turn_idx as int;
            &&& is_square(self.en_passant_mask)
            &&& rank_of(e) == (if t == 0 {
                5int
            } else {
                2int
            })
            &&& !has_sq(self.occ_all(), e)
            &&& self.piece_on(1 - t, PIECE_PAWN as int, e - 8 * pawn_dy(t))
        }
    }

    /// What does not follow from anything else is in order: the pieces, the
    /// castling rights and the en-passant square.
    pub open spec fn wf_core(&self) -> bool {
        self.wf_pieces() && self.castle_ok() && self.en_passant_ok()
    }

    /// What move generation reads of the derived fields is up to date: the
    /// attacks of the side that is not to move, the pins of the side to move,
    /// and the checkers.
    pub open spec fn fresh(&self) -> bool {
        &&& self.attacks_ok(1 - self.turn_idx)
        &&& self.pinned_ok(self.turn_idx as int)
        &&& self.checkers_ok(1 - self.turn_idx)
    }

    /// The position is in order: its pieces, rights and en-passant square, the
    /// occupancy and the hash, and the derived fields that move generation reads.
    pub open spec fn inv(&self, keys: &ZobristKeys) -> bool {
        &&& self.wf_core()
        &&& self.occupancy_ok()
        &&& self.hash == self.spec_hash(keys)
        &&& self.fresh()
    }

    /// A position without pieces, White to move.
    pub fn new() -> (board: Board)
        ensures
            board.turn_idx == 0,
            forall|t: int|
                0 <= t < 2 ==> (#[trigger] board.occupancy[t]) == 0 && board.attacks[t] == 0
                    && board.pinned[t] == 0,
            forall|t: int, p: int| 0 <= t < 2 && 0 <= p < 6 ==> (#[trigger] board.pieces[t][p]) == 0,
            forall|t: int, side: int|
                0 <= t < 2 && 0 <= side < 2 ==> !#[trigger] board.castle_rights[t][side],
            board.checkers == 0,
            board.en_passant_mask == 0,
            board.half_move_counter == 0,
            board.hash == 0,
    {
        Board {
            occupancy: [0;2],
            attacks: [0;2],
            checkers: 0,
            pinned: [0;2],
            pieces: [[0;NUM_PIECES];2],
            turn_idx: 0,
            en_passant_mask: 0,
            castle_rights: [[false;2];2],
            half_move_counter: 0,
            hash: 0,
        }
    }

    /// The squares that hold a piece of either side.
    pub fn combined_occupancy(&self) -> (occupancy: u64)
        ensures
            occupancy == self.occupancy[0] | self.occupancy[1],
    {
        self.occupancy[0] | self.occupancy[1]
    }
}


impl Move {
    /// The square that the move leaves.
    pub open spec fn from_sq(&self) -> int {
        lowest_sq(self.from)
    }

    /// The square that the move reaches.
    pub open spec fn to_sq(&self) -> int {
        lowest_sq(self.to)
    }

    /// The move is a pawn's double step.
    pub open spec fn doubles(&self) -> bool {
        self.spec_has_flag(Move::FLAG_DOUBLE_PAWN_MOVE)
    }

    /// The move captures a pawn in passing.
    pub open spec fn takes_en_passant(&self) -> bool {
        !self.doubles() && self.spec_has_flag(Move::FLAG_EN_PASSANT)
    }

    /// The move castles.
    pub open spec fn castles(&self) -> bool {
        !self.doubles() && !self.spec_has_flag(Move::FLAG_EN_PASSANT) && self.spec_has_flag(
            Move::FLAG_CASTLE,
        )
    }

    /// The wing that a castling move goes to: 1 for the king's, 0 for the queen's.
    pub open spec fn castle_side(&self) -> int {
        if self.to_sq() > self.from_sq() {
            1
        } else {
            0
        }
    }

    /// Where the rook lands when the move castles: next to the king's new
    /// square, on the side that the king came from.
    pub open spec fn castle_rook_to(&self) -> int {
        if self.to_sq() > self.from_sq() {
            self.to_sq() - 1
        } else {
            self.to_sq() + 1
        }
    }
}

impl Board {
    /// The square of the pawn that an en-passant capture on `to` removes.
    pub open spec fn en_passant_victim(&self, mv: &Move) -> int {
        mv.to_sq() - 8 * pawn_dy(self.turn_idx as int)
    }

    /// The move can be made in this position: it moves a piece of the side to
    /// move that stands where the move says, to a square that holds neither a
    /// piece of that side nor the other king, and what its flags claim is so.
    /// This asks less than legality: how the piece moves is not looked at.
    pub open spec fn move_ok(&self, mv: &Move) -> bool {
        let m = self.turn_idx as int;
        let o = 1 - m;
        &&& is_square(mv.from)
        &&& is_square(mv.to)
        &&& mv.from_sq() != mv.to_sq()
        &&& mv.from_piece_idx < 6
        &&& mv.to_piece_idx < 6
        &&& self.piece_on(m, mv.from_piece_idx as int, mv.from_sq())
        &&& !has_sq(self.occ(m), mv.to_sq())
        &&& !self.piece_on(o, PIECE_KING as int, mv.to_sq())
        &&& (mv.from_piece_idx == PIECE_KING <==> mv.to_piece_idx == PIECE_KING)
        &&& mv.doubles() ==> {
            &&& mv.from_piece_idx == PIECE_PAWN
            &&& mv.to_piece_idx == PIECE_PAWN
            &&& rank_of(mv.from_sq()) == (if m == 0 {
                1int
            } else {
                6int
            })
            &&& mv.to_sq() == mv.from_sq() + 16 * pawn_dy(m)
            &&& !has_sq(self.occ_all(), mv.from_sq() + 8 * pawn_dy(m))
            &&& !has_sq(self.occ_all(), mv.to_sq())
        }
        &&& mv.takes_en_passant() ==> {
            &&& mv.from_piece_idx == PIECE_PAWN
            &&& mv.to_piece_idx == PIECE_PAWN
            &&& self.en_passant_mask != 0
            &&& mv.to == self.en_passant_mask
        }
        &&& mv.castles() ==> {
            &&& mv.from_piece_idx == PIECE_KING
            &&& mv.from_sq() == king_home(m)
            &&& (mv.to_sq() == mv.from_sq() + 2 || mv.to_sq() == mv.from_sq() - 2)
            &&& self.piece_on(m, PIECE_ROOK as int, rook_home(m, mv.castle_side()))
            &&& !has_sq(self.occ_all(), mv.castle_rook_to())
            &&& !has_sq(self.occ_all(), mv.to_sq())
        }
    }

    /// After the move, side `t` has a piece of kind `p` on `sq`.
    pub open spec fn moved_has(&self, mv: &Move, t: int, p: int, sq: int) -> bool {
        let m = self.turn_idx as int;
        if t == m {
            ||| (self.piece_on(t, p, sq) && sq != mv.from_sq() && !(mv.castles() && p == PIECE_ROOK
                && sq == rook_home(m, mv.castle_side())))
            ||| (p == mv.to_piece_idx && sq == mv.to_sq())
            ||| (mv.castles() && p == PIECE_ROOK && sq == mv.castle_rook_to())
        } else {
            self.piece_on(t, p, sq) && sq != mv.to_sq() && !(mv.takes_en_passant() && p
                == PIECE_PAWN && sq == self.en_passant_victim(mv))
        }
    }

    /// After the move, side `t` may still castle on wing `side`: it might
    /// before, its king has not moved, and the move touched neither end of
    /// the rook's home square.
    pub open spec fn moved_right(&self, mv: &Move, t: int, side: int) -> bool {
        &&& self.castle_rights[t][side]
        &&& !(t == self.turn_idx && mv.from_piece_idx == PIECE_KING)
        &&& mv.from_sq() != rook_home(t, side)
        &&& mv.to_sq() != rook_home(t, side)
    }

    /// The en-passant square after the move: the square passed over by a
    /// double step, and none after any other move.
    pub open spec fn moved_en_passant(&self, mv: &Move) -> BitMask {
        if mv.doubles() {
            sq_mask(mv.to_sq() - 8 * pawn_dy(self.turn_idx as int))
        } else {
            0
        }
    }

    /// The move takes a piece or moves a pawn.
    pub open spec fn resets_counter(&self, mv: &Move) -> bool {
        has_sq(self.occ(1 - self.turn_idx), mv.to_sq()) || mv.from_piece_idx == PIECE_PAWN
    }

    /// The half-move counter after the move. It stops at 255.
    pub open spec fn moved_counter(&self, mv: &Move) -> int {
        if self.resets_counter(mv) {
            0
        } else if self.half_move_counter < 255 {
            self.half_move_counter + 1
        } else {
            255
        }
    }

    /// `after` is this position with the move `mv` made: the pieces, the side
    /// to move, the rights, the en-passant square and the counter.
    pub open spec fn moved_to(&self, mv: &Move, after: &Board) -> bool {
        &&& after.turn_idx == 1 - self.turn_idx
        &&& forall|t: int, p: int, sq: int|
            0 <= t < 2 && 0 <= p < 6 && is_sq(sq) ==> #[trigger] after.piece_on(t, p, sq)
                == self.moved_has(mv, t, p, sq)
        &&& forall|t: int, side: int|
            0 <= t < 2 && 0 <= side < 2 ==> #[trigger] after.castle_rights[t][side]
                == self.moved_right(mv, t, side)
        &&& after.en_passant_mask == self.moved_en_passant(mv)
        &&& after.half_move_counter == self.moved_counter(mv)
    }

    /// `after` is this position with the turn passed and no move made.
    pub open spec fn passed_to(&self, after: &Board) -> bool {
        &&& after.turn_idx == 1 - self.turn_idx
        &&& after.pieces == self.pieces
        &&& after.castle_rights == self.castle_rights
        &&& after.en_passant_mask == 0
        &&& after.half_move_counter == self.half_move_counter
    }
}


} // verus!
